//! The resumable build planner: a breadth-first walk of the build-dependency
//! closure.
//!
//! The planner pops package identifiers from a FIFO queue, normalizes them,
//! records each attempted name at most once, and discovers new work from the
//! dependency actions of each package's published manifest.  All contact
//! with the outside world — the package repository, the source-location
//! mapping, the build executor — enters these functions as plain values, so
//! the whole walk is a total computation that a caller drives.

use vstd::prelude::*;

use crate::ips::{
    values_for, Action, ActionDepend, ActionDependModel, ActionModel, DependType, ManifestError,
};
use crate::text::{chars_of, str_eq, string_from_chars, vec_contains_string};

verus! {

/// Strip the package scheme prefix, if present: `pkg:/name...` becomes
/// `name...`.
pub open spec fn strip_scheme(s: Seq<char>) -> Seq<char> {
    if s.len() >= 5 && s.take(5) == "pkg:/"@ {
        s.skip(5)
    } else {
        s
    }
}

/// Strip the version suffix, if present: everything from the first `'@'` on.
pub open spec fn strip_version(s: Seq<char>) -> Seq<char> {
    s.take(crate::text::first_idx(s, '@'))
}

/// The planning identity of a package reference: its name with any scheme
/// prefix and version suffix stripped.
pub open spec fn norm_spec(s: Seq<char>) -> Seq<char> {
    strip_version(strip_scheme(s))
}

/// Normalize a package reference to the name used for deduplication.
pub fn normalize(fmri: &str) -> (r: String)
    ensures
        r@ == norm_spec(fmri@),
{
    let cs = chars_of(fmri);
    let n: usize = cs.len();
    let start: usize = if n >= 5 && cs[0] == 'p' && cs[1] == 'k' && cs[2] == 'g' && cs[3] == ':'
        && cs[4] == '/' {
        proof {
            assert(cs@.take(5) =~= "pkg:/"@) by {
                reveal_strlit("pkg:/");
            }
        }
        5
    } else {
        proof {
            reveal_strlit("pkg:/");
            if n >= 5 {
                assert(cs@.take(5) != "pkg:/"@) by {
                    if cs@.take(5) == "pkg:/"@ {
                        assert(cs@.take(5)[0] == 'p' && cs@.take(5)[1] == 'k' && cs@.take(5)[2]
                            == 'g' && cs@.take(5)[3] == ':' && cs@.take(5)[4] == '/');
                    }
                }
            }
        }
        0
    };
    let ghost t = strip_scheme(fmri@);
    proof {
        assert(cs@.skip(start as int) =~= t);
    }
    let mut out: Vec<char> = Vec::new();
    let mut i: usize = start;
    proof {
        assert(out@ =~= t.take(0));
        assert(t.len() == n - start);
    }
    while i < n
        invariant
            start <= i <= n,
            n == cs@.len(),
            t == cs@.skip(start as int),
            out@ == t.take(i - start),
            forall|j: int| 0 <= j < i - start ==> t[j] != '@',
        ensures
            start <= i <= n,
            out@ == t.take(i - start),
            forall|j: int| 0 <= j < i - start ==> t[j] != '@',
            i < n ==> t[i - start] == '@',
        decreases n - i,
    {
        let c = cs[i];
        assert(t[i - start] == c);
        if c == '@' {
            break;
        }
        out.push(c);
        assert(out@ =~= t.take(i + 1 - start));
        i = i + 1;
    }
    proof {
        let fi = crate::text::first_idx(t, '@');
        crate::text::lemma_first_idx_bounds(t, '@');
        if i < n {
            assert(t[i - start] == '@');
            assert(fi == i - start);
        } else {
            assert(fi == t.len());
        }
        assert(out@ == t.take(fi));
    }
    string_from_chars(&out)
}

/// One unit of pending work: a package reference as it appeared in a
/// dependency action, and whether failure to resolve it is fatal.
#[derive(Debug, Clone)]
pub struct QueueEntry {
    pub fmri: String,
    pub optional: bool,
}

/// Mathematical content of a queue entry.
#[verifier::ext_equal]
pub struct EntryModel {
    pub fmri: Seq<char>,
    pub optional: bool,
}

impl View for QueueEntry {
    type V = EntryModel;

    open spec fn view(&self) -> EntryModel {
        EntryModel { fmri: self.fmri@, optional: self.optional }
    }
}

impl DeepView for QueueEntry {
    type V = EntryModel;

    open spec fn deep_view(&self) -> EntryModel {
        self.view()
    }
}

/// The dependency-edge traversal policy: which targets of a `depend` action
/// enter the work queue, and with which optional flag.
///
/// An `Incorporate` edge is a version constraint only and is never walked.
/// Every other kind enqueues all listed targets, over-approximating
/// alternative and group dependencies; only an `Optional` edge marks its
/// targets optional.
pub open spec fn enqueue_policy(d: ActionDependModel) -> Seq<EntryModel> {
    if d.type_ is Incorporate {
        Seq::empty()
    } else {
        d.fmri.map_values(
            |f: Seq<char>| EntryModel { fmri: f, optional: d.type_ is Optional },
        )
    }
}

/// The queue entries a single dependency action contributes.
pub fn targets_to_enqueue(d: &ActionDepend) -> (r: Vec<QueueEntry>)
    ensures
        r.deep_view() == enqueue_policy(d@),
{
    let mut out: Vec<QueueEntry> = Vec::new();
    if matches!(d.type_(), DependType::Incorporate) {
        proof {
            assert(out.deep_view() =~= enqueue_policy(d@));
        }
        return out;
    }
    let optional = matches!(d.type_(), DependType::Optional);
    let fmris = d.fmris();
    let n: usize = fmris.len();
    let mut i: usize = 0;
    proof {
        assert(out.deep_view() =~= enqueue_policy(d@).take(0));
    }
    while i < n
        invariant
            i <= n,
            n == fmris@.len(),
            fmris.deep_view() == d@.fmri,
            optional == (d@.type_ is Optional),
            !(d@.type_ is Incorporate),
            out.deep_view() == enqueue_policy(d@).take(i as int),
        decreases n - i,
    {
        let ghost out0 = out.deep_view();
        out.push(QueueEntry { fmri: fmris[i].to_owned(), optional });
        proof {
            assert(fmris@[i as int]@ == fmris.deep_view()[i as int]);
            assert(out.deep_view() =~~= out0.push(
                EntryModel { fmri: d@.fmri[i as int], optional: d@.type_ is Optional },
            ));
            assert(enqueue_policy(d@)[i as int] == EntryModel {
                fmri: d@.fmri[i as int],
                optional: d@.type_ is Optional,
            });
            assert(out.deep_view() =~= enqueue_policy(d@).take(i as int + 1));
        }
        i = i + 1;
    }
    proof {
        assert(enqueue_policy(d@).take(n as int) =~= enqueue_policy(d@));
    }
    out
}

/// The persisted planner state: names already attempted, work still queued,
/// and failures recorded for a later re-drive under skip-failures mode.
#[derive(Debug, Clone)]
pub struct PlannerState {
    pub seen: Vec<String>,
    pub q: Vec<QueueEntry>,
    pub fails: Vec<QueueEntry>,
}

impl PlannerState {
    /// A fresh state: the seed references queued non-optionally, nothing
    /// seen, nothing failed.
    pub fn new(seed: &Vec<String>) -> (r: PlannerState)
        ensures
            r.seen@.len() == 0,
            r.fails@.len() == 0,
            r.q.deep_view() == seed.deep_view().map_values(
                |f: Seq<char>| EntryModel { fmri: f, optional: false },
            ),
    {
        let ghost target = seed.deep_view().map_values(
            |f: Seq<char>| EntryModel { fmri: f, optional: false },
        );
        let mut q: Vec<QueueEntry> = Vec::new();
        let n: usize = seed.len();
        let mut i: usize = 0;
        proof {
            assert(q.deep_view() =~= target.take(0));
        }
        while i < n
            invariant
                i <= n,
                n == seed@.len(),
                target == seed.deep_view().map_values(
                    |f: Seq<char>| EntryModel { fmri: f, optional: false },
                ),
                q.deep_view() == target.take(i as int),
            decreases n - i,
        {
            let ghost q0 = q.deep_view();
            q.push(QueueEntry { fmri: seed[i].clone(), optional: false });
            proof {
                assert(seed@[i as int]@ == seed.deep_view()[i as int]);
                assert(q.deep_view() =~~= q0.push(
                    EntryModel { fmri: seed.deep_view()[i as int], optional: false },
                ));
                assert(q.deep_view() =~= target.take(i as int + 1));
            }
            i = i + 1;
        }
        proof {
            assert(target.take(n as int) =~= target);
        }
        PlannerState { seen: Vec::new(), q, fails: Vec::new() }
    }

    /// Whether a normalized name has already been attempted.
    pub fn is_seen(&self, name: &str) -> (r: bool)
        ensures
            r == self.seen.deep_view().contains(name@),
    {
        vec_contains_string(&self.seen, name)
    }
}

/// Index of the first queue entry whose normalized name is not yet seen,
/// or the queue length if every entry has been attempted already.
pub open spec fn first_fresh(q: Seq<EntryModel>, seen: Seq<Seq<char>>) -> int
    decreases q.len(),
{
    if q.len() == 0 {
        0
    } else if !seen.contains(norm_spec(q[0].fmri)) {
        0
    } else {
        1 + first_fresh(q.skip(1), seen)
    }
}

pub proof fn lemma_first_fresh_bounds(q: Seq<EntryModel>, seen: Seq<Seq<char>>)
    ensures
        0 <= first_fresh(q, seen) <= q.len(),
        first_fresh(q, seen) < q.len() ==> !seen.contains(
            norm_spec(q[first_fresh(q, seen)].fmri),
        ),
        forall|j: int| 0 <= j < first_fresh(q, seen) ==> seen.contains(
            norm_spec(#[trigger] q[j].fmri),
        ),
    decreases q.len(),
{
    if q.len() == 0 {
    } else if !seen.contains(norm_spec(q[0].fmri)) {
    } else {
        lemma_first_fresh_bounds(q.skip(1), seen);
        assert forall|j: int| 0 <= j < first_fresh(q, seen) implies seen.contains(
            norm_spec(#[trigger] q[j].fmri),
        ) by {
            if j >= 1 {
                assert(q[j] == q.skip(1)[j - 1]);
            }
        }
    }
}

proof fn lemma_first_fresh_skip(q: Seq<EntryModel>, seen: Seq<Seq<char>>, k: int)
    requires
        0 <= k <= q.len(),
        forall|j: int| 0 <= j < k ==> seen.contains(norm_spec(#[trigger] q[j].fmri)),
    ensures
        first_fresh(q, seen) == k + first_fresh(q.skip(k), seen),
    decreases k,
{
    if k == 0 {
        assert(q.skip(0) =~= q);
    } else {
        assert(seen.contains(norm_spec(q[0].fmri)));
        assert(q.skip(1).skip(k - 1) =~= q.skip(k));
        assert(forall|j: int| 0 <= j < k - 1 ==> q.skip(1)[j] == q[j + 1]);
        lemma_first_fresh_skip(q.skip(1), seen, k - 1);
    }
}

impl PlannerState {
    /// Pop entries until one names a package not yet attempted; normalize
    /// that name, record it as seen, and hand it back with its optional
    /// flag.  Entries whose package was already attempted are discarded.
    pub fn take_next(&mut self) -> (r: Option<(QueueEntry, String)>)
        ensures
            ({
                let q0 = old(self).q.deep_view();
                let seen0 = old(self).seen.deep_view();
                let i = first_fresh(q0, seen0);
                &&& final(self).fails@ == old(self).fails@
                &&& if i == q0.len() {
                    &&& r is None
                    &&& final(self).q@.len() == 0
                    &&& final(self).seen.deep_view() == seen0
                } else {
                    &&& match r {
                        Some(p) => p.0@ == q0[i] && p.1@ == norm_spec(q0[i].fmri),
                        None => false,
                    }
                    &&& final(self).q.deep_view() == q0.skip(i + 1)
                    &&& final(self).seen.deep_view() == seen0.push(norm_spec(q0[i].fmri))
                }
            }),
    {
        let ghost q0 = self.q.deep_view();
        let ghost seen0 = self.seen.deep_view();
        let ghost mut k: int = 0;
        proof {
            assert(self.q.deep_view() =~= q0.skip(0));
        }
        while self.q.len() > 0
            invariant
                q0 == old(self).q.deep_view(),
                seen0 == old(self).seen.deep_view(),
                0 <= k <= q0.len(),
                self.q.deep_view() == q0.skip(k),
                self.seen.deep_view() == seen0,
                self.fails@ == old(self).fails@,
                forall|j: int| 0 <= j < k ==> seen0.contains(norm_spec(#[trigger] q0[j].fmri)),
            ensures
                0 <= k <= q0.len(),
                self.q.deep_view() == q0.skip(k),
                self.seen.deep_view() == seen0,
                self.fails@ == old(self).fails@,
                self.q@.len() == 0,
                forall|j: int| 0 <= j < k ==> seen0.contains(norm_spec(#[trigger] q0[j].fmri)),
            decreases self.q@.len(),
        {
            let ghost qpre = self.q.deep_view();
            let ghost qv0 = self.q@;
            let e = self.q.remove(0);
            proof {
                assert(self.q@ =~= qv0.skip(1));
                assert(qpre.len() == qv0.len());
                assert(qpre.len() == q0.len() - k);
                assert(self.q.deep_view().len() == qv0.len() - 1);
                assert(e == qv0[0]);
                assert(e@ == qpre[0]);
                assert(qpre[0] == q0.skip(k)[0]);
                assert(qpre[0] == q0[k]);
                assert forall|j: int|
                    0 <= j < self.q.deep_view().len() implies #[trigger] self.q.deep_view()[j]
                    == q0.skip(k + 1)[j] by {
                    assert(self.q@[j] == qv0[j + 1]);
                    assert(self.q.deep_view()[j] == qv0[j + 1].deep_view());
                    assert(qpre[j + 1] == qv0[j + 1].deep_view());
                    assert(0 <= j + 1 < q0.skip(k).len());
                    assert(qpre[j + 1] == q0.skip(k)[j + 1]);
                    assert(q0.skip(k)[j + 1] == q0[k + j + 1]);
                    assert(0 <= j < q0.skip(k + 1).len());
                    assert(q0.skip(k + 1)[j] == q0[k + 1 + j]);
                }
                assert(self.q.deep_view() =~= q0.skip(k + 1));
            }
            let n = normalize(e.fmri.as_str());
            if self.is_seen(n.as_str()) {
                proof {
                    k = k + 1;
                }
            } else {
                proof {
                    lemma_first_fresh_skip(q0, seen0, k);
                    assert(first_fresh(q0.skip(k), seen0) == 0);
                    assert(first_fresh(q0, seen0) == k);
                }
                let ghost sv = self.seen.deep_view();
                self.seen.push(n.clone());
                proof {
                    assert(self.seen.deep_view() =~~= sv.push(norm_spec(q0[k].fmri)));
                }
                proof {
                    assert(0 <= k < q0.len());
                    assert(e@ == q0[k]);
                    assert(n@ == norm_spec(q0[k].fmri));
                    assert(self.q.deep_view() == q0.skip(k + 1));
                    assert(self.seen.deep_view() == seen0.push(norm_spec(q0[k].fmri)));
                    assert(self.fails@ == old(self).fails@);
                }
                return Some((e, n));
            }
        }
        proof {
            assert(q0.skip(k).len() == 0);
            assert(k == q0.len());
            lemma_first_fresh_skip(q0, seen0, k);
            assert(q0.skip(k) =~= Seq::<EntryModel>::empty());
            assert(first_fresh(q0, seen0) == k);
        }
        None
    }
}

/// The queue entries a single parsed action contributes: those of its
/// dependency edge for a `depend` action, none otherwise.
pub open spec fn act_targets(a: ActionModel) -> Seq<EntryModel> {
    match a {
        ActionModel::Depend(d) => enqueue_policy(d),
        ActionModel::Unknown(_, _, _) => Seq::empty(),
    }
}

/// Every queue entry contributed by a sequence of parsed actions, in order.
pub open spec fn all_targets(acts: Seq<ActionModel>) -> Seq<EntryModel>
    decreases acts.len(),
{
    if acts.len() == 0 {
        Seq::empty()
    } else {
        all_targets(acts.drop_last()) + act_targets(acts.last())
    }
}

/// The entries of `ts` whose normalized name is not in `seen`.
pub open spec fn fresh_targets(ts: Seq<EntryModel>, seen: Seq<Seq<char>>) -> Seq<EntryModel>
    decreases ts.len(),
{
    if ts.len() == 0 {
        Seq::empty()
    } else {
        let rest = fresh_targets(ts.drop_last(), seen);
        if seen.contains(norm_spec(ts.last().fmri)) {
            rest
        } else {
            rest.push(ts.last())
        }
    }
}

proof fn lemma_fresh_targets_concat(a: Seq<EntryModel>, b: Seq<EntryModel>, seen: Seq<Seq<char>>)
    ensures
        fresh_targets(a + b, seen) == fresh_targets(a, seen) + fresh_targets(b, seen),
    decreases b.len(),
{
    if b.len() == 0 {
        assert(a + b =~= a);
        assert(fresh_targets(a, seen) + fresh_targets(b, seen) =~= fresh_targets(a, seen));
    } else {
        assert((a + b).drop_last() =~= a + b.drop_last());
        assert((a + b).last() == b.last());
        lemma_fresh_targets_concat(a, b.drop_last(), seen);
        if seen.contains(norm_spec(b.last().fmri)) {
        } else {
            assert(fresh_targets(a, seen) + fresh_targets(b.drop_last(), seen).push(b.last())
                =~= (fresh_targets(a, seen) + fresh_targets(b.drop_last(), seen)).push(b.last()));
        }
    }
}

/// Some entry of `q` names the package `x`.
pub open spec fn queued_name(q: Seq<EntryModel>, x: Seq<char>) -> bool {
    exists|k: int| 0 <= k < q.len() && norm_spec((#[trigger] q[k]).fmri) == x
}

proof fn lemma_fresh_targets_complete(ts: Seq<EntryModel>, seen: Seq<Seq<char>>, ti: int)
    requires
        0 <= ti < ts.len(),
        !seen.contains(norm_spec(ts[ti].fmri)),
    ensures
        fresh_targets(ts, seen).contains(ts[ti]),
    decreases ts.len(),
{
    if ti == ts.len() - 1 {
        assert(ts.last() == ts[ti]);
        let f = fresh_targets(ts, seen);
        assert(f.last() == ts[ti]);
        assert(f[f.len() - 1] == ts[ti]);
    } else {
        assert(ts.drop_last()[ti] == ts[ti]);
        lemma_fresh_targets_complete(ts.drop_last(), seen, ti);
        let rest = fresh_targets(ts.drop_last(), seen);
        let w = choose|w: int| 0 <= w < rest.len() && rest[w] == ts[ti];
        assert(fresh_targets(ts, seen)[w] == ts[ti]);
    }
}

pub proof fn lemma_fresh_targets_sub(ts: Seq<EntryModel>, seen: Seq<Seq<char>>)
    ensures
        forall|x: EntryModel| #[trigger] fresh_targets(ts, seen).contains(x) ==> ts.contains(x)
            && !seen.contains(norm_spec(x.fmri)),
    decreases ts.len(),
{
    if ts.len() == 0 {
    } else {
        lemma_fresh_targets_sub(ts.drop_last(), seen);
        assert forall|x: EntryModel| #[trigger] fresh_targets(ts, seen).contains(x) implies ts
            .contains(x) && !seen.contains(norm_spec(x.fmri)) by {
            let rest = fresh_targets(ts.drop_last(), seen);
            if rest.contains(x) {
                assert(ts.drop_last().contains(x));
                let w = choose|w: int| 0 <= w < ts.drop_last().len() && ts.drop_last()[w] == x;
                assert(ts[w] == x);
            } else {
                assert(x == ts.last());
                assert(ts[ts.len() - 1] == x);
            }
        }
    }
}

/// Apply the traversal policy to every parsed action of one manifest and
/// append the targets not yet attempted to the work queue, in order.
impl PlannerState {
    pub fn enqueue_new(&mut self, acts: &Vec<Action>)
        ensures
            final(self).q.deep_view() == old(self).q.deep_view() + fresh_targets(
                all_targets(acts.deep_view()),
                old(self).seen.deep_view(),
            ),
            final(self).seen@ == old(self).seen@,
            final(self).fails@ == old(self).fails@,
    {
        let ghost am = acts.deep_view();
        let ghost seenv = self.seen.deep_view();
        let ghost qbase = self.q.deep_view();
        let n: usize = acts.len();
        let mut ai: usize = 0;
        proof {
            assert(am.take(0) =~= Seq::<ActionModel>::empty());
            assert(fresh_targets(all_targets(am.take(0)), seenv)
                =~= Seq::<EntryModel>::empty());
            assert(qbase + fresh_targets(all_targets(am.take(0)), seenv) =~= qbase);
        }
        while ai < n
            invariant
                ai <= n,
                n == acts@.len(),
                am == acts.deep_view(),
                seenv == old(self).seen.deep_view(),
                qbase == old(self).q.deep_view(),
                self.seen@ == old(self).seen@,
                self.fails@ == old(self).fails@,
                self.q.deep_view() == qbase + fresh_targets(all_targets(am.take(ai as int)), seenv),
            decreases n - ai,
        {
            proof {
                assert(am.take(ai as int + 1).drop_last() =~= am.take(ai as int));
                assert(am.take(ai as int + 1).last() == am[ai as int]);
                assert(all_targets(am.take(ai as int + 1)) == all_targets(am.take(ai as int))
                    + act_targets(am[ai as int]));
                lemma_fresh_targets_concat(
                    all_targets(am.take(ai as int)),
                    act_targets(am[ai as int]),
                    seenv,
                );
                assert(acts.deep_view()[ai as int] == acts@[ai as int].deep_view());
            }
            match &acts[ai] {
                Action::Depend(d) => {
                    proof {
                        assert(am[ai as int] == ActionModel::Depend(d@));
                    }
                    let ts = targets_to_enqueue(d);
                    let ghost tm = ts.deep_view();
                    let ghost base2 = self.q.deep_view();
                    let m: usize = ts.len();
                    let mut ti: usize = 0;
                    proof {
                        assert(tm.take(0) =~= Seq::<EntryModel>::empty());
                        assert(fresh_targets(tm.take(0), seenv) =~= Seq::<EntryModel>::empty());
                        assert(base2 + fresh_targets(tm.take(0), seenv) =~= base2);
                    }
                    while ti < m
                        invariant
                            ti <= m,
                            m == ts@.len(),
                            tm == ts.deep_view(),
                            seenv == old(self).seen.deep_view(),
                            self.seen@ == old(self).seen@,
                            self.fails@ == old(self).fails@,
                            self.q.deep_view() == base2 + fresh_targets(
                                tm.take(ti as int),
                                seenv,
                            ),
                        decreases m - ti,
                    {
                        proof {
                            assert(tm.take(ti as int + 1).drop_last() =~= tm.take(ti as int));
                            assert(tm.take(ti as int + 1).last() == tm[ti as int]);
                            assert(ts.deep_view()[ti as int] == ts@[ti as int].deep_view());
                            assert(self.seen.deep_view() =~= seenv);
                        }
                        let nt = normalize(ts[ti].fmri.as_str());
                        if !self.is_seen(nt.as_str()) {
                            let ghost qq = self.q.deep_view();
                            self.q.push(
                                QueueEntry { fmri: ts[ti].fmri.clone(), optional: ts[ti].optional },
                            );
                            proof {
                                assert(self.q.deep_view() =~~= qq.push(tm[ti as int]));
                                assert(qq.push(tm[ti as int]) =~= base2 + fresh_targets(
                                    tm.take(ti as int),
                                    seenv,
                                ).push(tm[ti as int]));
                            }
                        }
                        ti = ti + 1;
                    }
                    proof {
                        assert(tm.take(m as int) =~= tm);
                        assert(tm == act_targets(am[ai as int]));
                        assert(base2 + fresh_targets(tm, seenv) =~= qbase + (fresh_targets(
                            all_targets(am.take(ai as int)),
                            seenv,
                        ) + fresh_targets(tm, seenv)));
                    }
                },
                Action::Unknown(_, _, _) => {
                    proof {
                        assert(act_targets(am[ai as int]) =~= Seq::<EntryModel>::empty());
                        assert(fresh_targets(Seq::<EntryModel>::empty(), seenv)
                            =~= Seq::<EntryModel>::empty());
                        assert(self.q.deep_view() + Seq::<EntryModel>::empty()
                            =~= self.q.deep_view());
                        assert(qbase + (fresh_targets(all_targets(am.take(ai as int)), seenv)
                            + Seq::<EntryModel>::empty()) =~= qbase + fresh_targets(
                            all_targets(am.take(ai as int)),
                            seenv,
                        ));
                    }
                },
            }
            ai = ai + 1;
        }
        proof {
            assert(am.take(n as int) =~= am);
        }
    }
}

proof fn lemma_add_contains<A>(a: Seq<A>, b: Seq<A>)
    ensures
        forall|x: A| #[trigger] (a + b).contains(x) <==> a.contains(x) || b.contains(x),
{
    assert forall|x: A| #[trigger] (a + b).contains(x) implies a.contains(x) || b.contains(x) by {
        let w = choose|w: int| 0 <= w < (a + b).len() && (a + b)[w] == x;
        if w < a.len() {
            assert(a[w] == x);
        } else {
            assert(b[w - a.len()] == x);
        }
    }
    assert forall|x: A| a.contains(x) || b.contains(x) implies #[trigger] (a + b).contains(x) by {
        if a.contains(x) {
            let w = choose|w: int| 0 <= w < a.len() && a[w] == x;
            assert((a + b)[w] == x);
        } else {
            let w = choose|w: int| 0 <= w < b.len() && b[w] == x;
            assert((a + b)[a.len() + w] == x);
        }
    }
}

proof fn lemma_push_contains<A>(s: Seq<A>, y: A)
    ensures
        forall|x: A| s.contains(x) ==> #[trigger] s.push(y).contains(x),
        s.push(y).contains(y),
        forall|x: A| #[trigger] s.push(y).contains(x) ==> s.contains(x) || x == y,
{
    assert(s.push(y)[s.len() as int] == y);
    assert forall|x: A| s.contains(x) implies #[trigger] s.push(y).contains(x) by {
        let w = choose|w: int| 0 <= w < s.len() && s[w] == x;
        assert(s.push(y)[w] == x);
    }
    assert forall|x: A| #[trigger] s.push(y).contains(x) implies s.contains(x) || x == y by {
        let w = choose|w: int| 0 <= w < s.push(y).len() && s.push(y)[w] == x;
        if w < s.len() {
            assert(s[w] == x);
        }
    }
}

/// The normalized names of a sequence of queue entries.
pub open spec fn norms_of(ts: Seq<EntryModel>) -> Seq<Seq<char>> {
    ts.map_values(|e: EntryModel| norm_spec(e.fmri))
}

/// Every queue entry that walking one manifest text can contribute; none if
/// the text does not parse.
pub open spec fn manifest_targets(text: Seq<char>) -> Seq<EntryModel> {
    match crate::ips::manifest_model(text) {
        Ok(acts) => all_targets(acts),
        Err(_) => Seq::empty(),
    }
}

/// Every normalized name a planning walk over these inputs can attempt:
/// the queued references and every target of every manifest of the store.
pub open spec fn plan_universe(
    q: Seq<EntryModel>,
    ms: Seq<(Seq<char>, Seq<char>)>,
) -> Seq<Seq<char>> {
    norms_of(q) + manifests_universe(ms)
}

/// The normalized names of every target of every manifest of the store.
pub open spec fn manifests_universe(ms: Seq<(Seq<char>, Seq<char>)>) -> Seq<Seq<char>>
    decreases ms.len(),
{
    if ms.len() == 0 {
        Seq::empty()
    } else {
        manifests_universe(ms.drop_last()) + norms_of(manifest_targets(ms.last().1))
    }
}

proof fn lemma_manifests_universe_covers(ms: Seq<(Seq<char>, Seq<char>)>, j: int)
    requires
        0 <= j < ms.len(),
    ensures
        forall|x: Seq<char>|
            norms_of(manifest_targets(ms[j].1)).contains(x) ==> #[trigger] manifests_universe(
                ms,
            ).contains(x),
    decreases ms.len(),
{
    let a = manifests_universe(ms.drop_last());
    let b = norms_of(manifest_targets(ms.last().1));
    lemma_add_contains(a, b);
    if j == ms.len() - 1 {
        assert(ms.last() == ms[j]);
    } else {
        assert(ms.drop_last()[j] == ms[j]);
        lemma_manifests_universe_covers(ms.drop_last(), j);
    }
}

/// How many entries of `u` are not yet members of `seen`; the planner's
/// termination measure.
pub open spec fn count_unseen(u: Seq<Seq<char>>, seen: Seq<Seq<char>>) -> nat
    decreases u.len(),
{
    if u.len() == 0 {
        0
    } else {
        count_unseen(u.drop_last(), seen) + if seen.contains(u.last()) {
            0nat
        } else {
            1nat
        }
    }
}

proof fn lemma_count_unseen_mono(u: Seq<Seq<char>>, seen: Seq<Seq<char>>, x: Seq<char>)
    ensures
        count_unseen(u, seen.push(x)) <= count_unseen(u, seen),
    decreases u.len(),
{
    lemma_push_contains(seen, x);
    if u.len() == 0 {
    } else {
        lemma_count_unseen_mono(u.drop_last(), seen, x);
    }
}

proof fn lemma_count_unseen_strict(u: Seq<Seq<char>>, seen: Seq<Seq<char>>, x: Seq<char>)
    requires
        u.contains(x),
        !seen.contains(x),
    ensures
        count_unseen(u, seen.push(x)) < count_unseen(u, seen),
    decreases u.len(),
{
    lemma_push_contains(seen, x);
    if u.last() == x {
        lemma_count_unseen_mono(u.drop_last(), seen, x);
    } else {
        let w = choose|w: int| 0 <= w < u.len() && u[w] == x;
        assert(u.drop_last()[w] == x);
        assert(u.drop_last().contains(x));
        lemma_count_unseen_strict(u.drop_last(), seen, x);
    }
}

/// All values mapped to `name` by an association list, in order.
pub fn lookup_values(pairs: &Vec<(String, String)>, name: &str) -> (r: Vec<String>)
    ensures
        r.deep_view() == values_for(pairs.deep_view(), name@),
{
    let n: usize = pairs.len();
    let mut out: Vec<String> = Vec::new();
    let mut i: usize = 0;
    proof {
        assert(pairs.deep_view().take(0) =~= Seq::<(Seq<char>, Seq<char>)>::empty());
        assert(out.deep_view() =~= values_for(pairs.deep_view().take(0), name@));
    }
    while i < n
        invariant
            i <= n,
            n == pairs@.len(),
            out.deep_view() == values_for(pairs.deep_view().take(i as int), name@),
        decreases n - i,
    {
        let ghost pre = pairs.deep_view().take(i as int);
        proof {
            assert(pairs.deep_view().take(i as int + 1) =~= pre.push(
                pairs.deep_view()[i as int],
            ));
            crate::ips::lemma_values_for_push(pre, pairs.deep_view()[i as int], name@);
        }
        if str_eq(pairs[i].0.as_str(), name) {
            let ghost out0 = out.deep_view();
            out.push(pairs[i].1.clone());
            proof {
                assert(out.deep_view() =~~= out0.push(pairs.deep_view()[i as int].1));
            }
        }
        i = i + 1;
    }
    proof {
        assert(pairs.deep_view().take(n as int) =~= pairs.deep_view());
    }
    out
}

/// The value of the first pair of `pairs` whose key is `name`, if any.
pub open spec fn first_match(pairs: Seq<(Seq<char>, Seq<char>)>, name: Seq<char>) -> Option<
    Seq<char>,
>
    decreases pairs.len(),
{
    if pairs.len() == 0 {
        None
    } else if pairs[0].0 == name {
        Some(pairs[0].1)
    } else {
        first_match(pairs.skip(1), name)
    }
}

proof fn lemma_first_match_skip(pairs: Seq<(Seq<char>, Seq<char>)>, name: Seq<char>, k: int)
    requires
        0 <= k <= pairs.len(),
        forall|j: int| 0 <= j < k ==> (#[trigger] pairs[j]).0 != name,
    ensures
        first_match(pairs, name) == first_match(pairs.skip(k), name),
    decreases k,
{
    if k == 0 {
        assert(pairs.skip(0) =~= pairs);
    } else {
        assert(pairs[0].0 != name);
        assert(pairs.skip(1).skip(k - 1) =~= pairs.skip(k));
        assert(forall|j: int| 0 <= j < k - 1 ==> pairs.skip(1)[j] == pairs[j + 1]);
        lemma_first_match_skip(pairs.skip(1), name, k - 1);
    }
}

/// The witness behind `first_match`: its result is the value at the first
/// matching index, and `None` means no key matches at all.
pub proof fn lemma_first_match_props(pairs: Seq<(Seq<char>, Seq<char>)>, name: Seq<char>)
    ensures
        match first_match(pairs, name) {
            None => forall|j: int| 0 <= j < pairs.len() ==> (#[trigger] pairs[j]).0 != name,
            Some(v) => exists|j: int|
                0 <= j < pairs.len() && (#[trigger] pairs[j]).0 == name && pairs[j].1 == v
                    && forall|k: int| 0 <= k < j ==> (#[trigger] pairs[k]).0 != name,
        },
    decreases pairs.len(),
{
    if pairs.len() == 0 {
    } else if pairs[0].0 == name {
        assert(pairs[0].0 == name && pairs[0].1 == pairs[0].1);
    } else {
        lemma_first_match_props(pairs.skip(1), name);
        match first_match(pairs, name) {
            None => {
                assert forall|j: int|
                    0 <= j < pairs.len() implies (#[trigger] pairs[j]).0 != name by {
                    if j >= 1 {
                        assert(pairs[j] == pairs.skip(1)[j - 1]);
                    }
                }
            },
            Some(v) => {
                let w = choose|w: int|
                    0 <= w < pairs.skip(1).len() && (#[trigger] pairs.skip(1)[w]).0 == name
                        && pairs.skip(1)[w].1 == v && forall|k: int|
                        0 <= k < w ==> (#[trigger] pairs.skip(1)[k]).0 != name;
                assert(pairs[w + 1] == pairs.skip(1)[w]);
                assert forall|k: int|
                    0 <= k < w + 1 implies (#[trigger] pairs[k]).0 != name by {
                    if k >= 1 {
                        assert(pairs.skip(1)[k - 1] == pairs[k]);
                    }
                }
            },
        }
    }
}

/// The first value mapped to `name` by an association list, if any.
pub fn find_first(pairs: &Vec<(String, String)>, name: &str) -> (r: Option<String>)
    ensures
        match r {
            None => first_match(pairs.deep_view(), name@) is None && values_for(
                pairs.deep_view(),
                name@,
            ).len() == 0,
            Some(t) => first_match(pairs.deep_view(), name@) == Some(t@),
        },
{
    let n: usize = pairs.len();
    let mut i: usize = 0;
    proof {
        assert(pairs.deep_view().take(0) =~= Seq::<(Seq<char>, Seq<char>)>::empty());
    }
    while i < n
        invariant
            i <= n,
            n == pairs@.len(),
            values_for(pairs.deep_view().take(i as int), name@).len() == 0,
            forall|j: int| 0 <= j < i ==> (#[trigger] pairs.deep_view()[j]).0 != name@,
        decreases n - i,
    {
        let ghost pre = pairs.deep_view().take(i as int);
        proof {
            assert(pairs.deep_view().take(i as int + 1) =~= pre.push(
                pairs.deep_view()[i as int],
            ));
            crate::ips::lemma_values_for_push(pre, pairs.deep_view()[i as int], name@);
        }
        if str_eq(pairs[i].0.as_str(), name) {
            proof {
                lemma_first_match_skip(pairs.deep_view(), name@, i as int);
                assert(pairs.deep_view().skip(i as int)[0] == pairs.deep_view()[i as int]);
            }
            return Some(pairs[i].1.clone());
        }
        i = i + 1;
    }
    proof {
        assert(pairs.deep_view().take(n as int) =~= pairs.deep_view());
        lemma_first_match_skip(pairs.deep_view(), name@, n as int);
        assert(pairs.deep_view().skip(n as int) =~= Seq::<(Seq<char>, Seq<char>)>::empty());
    }
    None
}

/// Why a planning run aborted.  Every case names the normalized package on
/// which the run stopped.
#[derive(Debug)]
pub enum PlanError {
    /// A non-optional package has no source-location mapping.
    NoMapping(String),
    /// A package has more than one source-location mapping.
    AmbiguousMapping(String),
    /// A package had to be built and its build failed; carries the package
    /// and its source location.
    BuildFailed(String, String),
    /// A package's published manifest cannot be fetched.
    ManifestUnavailable(String),
    /// A package's published manifest does not parse.
    ManifestUnparsable(String, ManifestError),
}

/// What a completed planning run did.
#[derive(Debug)]
pub struct PlanReport {
    /// Normalized names of the packages built, in build order.
    pub built: Vec<String>,
    /// Normalized names of optional packages skipped for want of a mapping.
    pub skipped: Vec<String>,
}

/// A package the walk must build when it attempts it: exactly one source
/// location, not the base OS, no existing build, and a build that does not
/// fail.
pub open spec fn buildable(
    x: Seq<char>,
    repo: Seq<Seq<char>>,
    maps: Seq<(Seq<char>, Seq<char>)>,
    failing: Seq<Seq<char>>,
) -> bool {
    &&& values_for(maps, x).len() == 1
    &&& x != "illumos"@
    &&& !repo.contains(x)
    &&& !failing.contains(x)
}

/// What the planner guarantees of every name it reports as built: it was
/// buildable, it had not been attempted before this run, and it is
/// recorded as attempted now.
pub open spec fn built_ok(
    b: Seq<char>,
    seen0: Seq<Seq<char>>,
    seen1: Seq<Seq<char>>,
    repo: Seq<Seq<char>>,
    maps: Seq<(Seq<char>, Seq<char>)>,
    failing: Seq<Seq<char>>,
) -> bool {
    &&& buildable(b, repo, maps, failing)
    &&& !seen0.contains(b)
    &&& seen1.contains(b)
}

/// The name `x` can be reached other than through an `Optional` edge: it
/// is a non-optional entry of the initial queue, or a non-optional target
/// of some manifest of the store.  Only such a name may abort the walk for
/// want of a source mapping.
pub open spec fn non_optional_reachable(
    q0: Seq<EntryModel>,
    ms: Seq<(Seq<char>, Seq<char>)>,
    x: Seq<char>,
) -> bool {
    ||| exists|j: int|
        0 <= j < q0.len() && !(#[trigger] q0[j]).optional && norm_spec(q0[j].fmri) == x
    ||| exists|j: int, k: int|
        0 <= j < ms.len() && 0 <= k < manifest_targets(ms[j].1).len() && !(#[trigger]
        manifest_targets(ms[j].1)[k]).optional && norm_spec(manifest_targets(ms[j].1)[k].fmri)
            == x
}

/// The manifest step fails for `x`: the store holds no manifest under that
/// name, or the first one it holds does not parse.
pub open spec fn manifest_step_fails(ms: Seq<(Seq<char>, Seq<char>)>, x: Seq<char>) -> bool {
    ||| values_for(ms, x).len() == 0
    ||| match first_match(ms, x) {
        Some(t) => crate::ips::manifest_model(t) is Err,
        None => false,
    }
}

/// Some recorded failure entry names the package `x`.
pub open spec fn recorded_failure(fails: Seq<EntryModel>, x: Seq<char>) -> bool {
    exists|j: int| 0 <= j < fails.len() && norm_spec((#[trigger] fails[j]).fmri) == x
}

/// Why a failure entry may stand in the fails queue: only under
/// skip-failures, only for an attempted package, and only because its
/// build or its manifest step failed.
pub open spec fn fail_entry_cause(
    e: EntryModel,
    seen: Seq<Seq<char>>,
    ms: Seq<(Seq<char>, Seq<char>)>,
    failing: Seq<Seq<char>>,
    skip_failures: bool,
) -> bool {
    &&& skip_failures
    &&& seen.contains(norm_spec(e.fmri))
    &&& (failing.contains(norm_spec(e.fmri)) || manifest_step_fails(ms, norm_spec(e.fmri)))
}

proof fn lemma_first_match_values(pairs: Seq<(Seq<char>, Seq<char>)>, name: Seq<char>)
    ensures
        first_match(pairs, name) is Some ==> values_for(pairs, name).len() >= 1,
{
    if first_match(pairs, name) is Some {
        lemma_first_match_props(pairs, name);
        let j = choose|j: int|
            0 <= j < pairs.len() && (#[trigger] pairs[j]).0 == name && pairs[j].1 == first_match(
                pairs,
                name,
            )->0 && forall|k: int| 0 <= k < j ==> (#[trigger] pairs[k]).0 != name;
        assert(pairs.take(j + 1).drop_last() =~= pairs.take(j));
        assert(pairs.take(j + 1).last() == pairs[j]);
        assert(values_for(pairs.take(j + 1), name).len() >= 1);
        crate::ips::lemma_values_for_prefix_le(pairs, name, j + 1);
    }
}

/// The next package a resumed walk must attempt: the first queue entry not
/// yet attempted names a package with exactly one source location that is
/// neither the base OS, nor already built, nor failing.
pub open spec fn resumes_next(
    q: Seq<EntryModel>,
    seen: Seq<Seq<char>>,
    repo: Seq<Seq<char>>,
    maps: Seq<(Seq<char>, Seq<char>)>,
    failing: Seq<Seq<char>>,
) -> bool {
    let i = first_fresh(q, seen);
    &&& i < q.len()
    &&& values_for(maps, norm_spec(q[i].fmri)).len() == 1
    &&& norm_spec(q[i].fmri) != "illumos"@
    &&& !repo.contains(norm_spec(q[i].fmri))
    &&& !failing.contains(norm_spec(q[i].fmri))
}

/// Everything one planning walk promises, stated over the state it began
/// from (`pre_*`), the state it left behind (`post`), and its outcome.
///
/// In order: failures are recorded only under skip-failures; the attempted
/// set only grows; success is owed when skip-failures is on and every
/// reachable name is uniquely mapped; a completed walk whose next fresh
/// entry was buildable built it first; the fails queue is only appended
/// to, and every appended entry names an attempted package whose build or
/// manifest step failed; under skip-failures every attempted package whose
/// build or manifest step failed is recorded; a completed walk drained its
/// queue, built exactly the buildable packages it attempted, and skipped
/// only unmapped optional packages; an aborted walk names a package whose
/// inputs force that abort, and a missing mapping is fatal only for a name
/// reachable non-optionally.
pub open spec fn walk_contract(
    pre_seen: Seq<Seq<char>>,
    pre_q: Seq<EntryModel>,
    pre_fails: Seq<EntryModel>,
    post: PlannerState,
    r: Result<PlanReport, PlanError>,
    repo: Seq<Seq<char>>,
    ms: Seq<(Seq<char>, Seq<char>)>,
    maps: Seq<(Seq<char>, Seq<char>)>,
    failing: Seq<Seq<char>>,
    skip_failures: bool,
) -> bool {
    &&& (!skip_failures ==> post.fails.deep_view() == pre_fails)
    &&& (forall|x: Seq<char>| pre_seen.contains(x) ==> post.seen.deep_view().contains(x))
    &&& ((skip_failures && forall|x: Seq<char>|
        #[trigger] plan_universe(pre_q, ms).contains(x) ==> values_for(maps, x).len() == 1)
        ==> r is Ok)
    &&& (r is Ok && resumes_next(pre_q, pre_seen, repo, maps, failing) ==> ({
        let rep = r->Ok_0;
        &&& rep.built.deep_view().len() > 0
        &&& rep.built.deep_view()[0] == norm_spec(pre_q[first_fresh(pre_q, pre_seen)].fmri)
    }))
    &&& pre_fails.len() <= post.fails.deep_view().len()
    &&& (forall|j: int|
        0 <= j < pre_fails.len() ==> #[trigger] post.fails.deep_view()[j] == pre_fails[j])
    &&& (forall|j: int|
        pre_fails.len() <= j < post.fails.deep_view().len() ==> fail_entry_cause(
            #[trigger] post.fails.deep_view()[j],
            post.seen.deep_view(),
            ms,
            failing,
            skip_failures,
        ))
    &&& (forall|x: Seq<char>|
        #[trigger] post.seen.deep_view().contains(x) && !pre_seen.contains(x) && skip_failures
            && values_for(maps, x).len() == 1 && x != "illumos"@ && !repo.contains(x)
            && failing.contains(x) ==> recorded_failure(post.fails.deep_view(), x))
    &&& (forall|x: Seq<char>|
        #[trigger] post.seen.deep_view().contains(x) && !pre_seen.contains(x) && skip_failures
            && values_for(maps, x).len() == 1 && x != "illumos"@ && (repo.contains(x)
            || !failing.contains(x)) && manifest_step_fails(ms, x) ==> recorded_failure(
            post.fails.deep_view(),
            x,
        ))
    &&& match r {
        Ok(rep) => {
            &&& post.q@.len() == 0
            &&& forall|j: int|
                0 <= j < pre_q.len() ==> post.seen.deep_view().contains(
                    norm_spec((#[trigger] pre_q[j]).fmri),
                )
            &&& forall|x: Seq<char>, ti: int|
                #[trigger] post.seen.deep_view().contains(x) && !pre_seen.contains(x)
                    && values_for(maps, x).len() == 1 && x != "illumos"@ && (repo.contains(x)
                    || !failing.contains(x)) && first_match(ms, x) is Some
                    && crate::ips::manifest_model(first_match(ms, x)->0) is Ok && 0 <= ti
                    < manifest_targets(first_match(ms, x)->0).len() ==> post.seen.deep_view()
                    .contains(
                    norm_spec((#[trigger] manifest_targets(first_match(ms, x)->0)[ti]).fmri),
                )
            &&& forall|j: int|
                0 <= j < rep.built.deep_view().len() ==> built_ok(
                    #[trigger] rep.built.deep_view()[j],
                    pre_seen,
                    post.seen.deep_view(),
                    repo,
                    maps,
                    failing,
                )
            &&& forall|x: Seq<char>|
                #[trigger] post.seen.deep_view().contains(x) && !pre_seen.contains(x)
                    && buildable(x, repo, maps, failing) ==> rep.built.deep_view().contains(x)
            &&& forall|j: int|
                0 <= j < rep.skipped.deep_view().len() ==> values_for(
                    maps,
                    #[trigger] rep.skipped.deep_view()[j],
                ).len() == 0
        },
        Err(e) => match e {
            PlanError::NoMapping(nm) => values_for(maps, nm@).len() == 0
                && non_optional_reachable(pre_q, ms, nm@),
            PlanError::AmbiguousMapping(nm) => values_for(maps, nm@).len() >= 2,
            PlanError::BuildFailed(nm, loc) => !skip_failures && failing.contains(nm@)
                && !repo.contains(nm@) && values_for(maps, nm@) =~= seq![loc@],
            PlanError::ManifestUnavailable(nm) => !skip_failures && values_for(ms, nm@).len()
                == 0,
            PlanError::ManifestUnparsable(nm, me) => !skip_failures && first_match(ms, nm@)
                is Some && crate::ips::manifest_model(first_match(ms, nm@)->0)
                == Err::<Seq<ActionModel>, ManifestError>(me),
        },
    }
}

/// Drive the planning walk to completion against in-memory collaborators.
///
/// `repo` holds the normalized names with an existing build; `manifests`
/// maps normalized names to published manifest text; `mappings` maps
/// normalized names to source locations; `failing` holds the names whose
/// build attempt fails.  The package named `illumos` stands for the base
/// operating system and is treated as already satisfied, never built.
///
/// The loop follows one fixed iteration: pop and normalize the next
/// reference, discard it if already attempted, record it as attempted,
/// resolve its source location (zero matches fatal unless the edge was
/// optional, several always fatal), query the repository, build when the
/// build is missing, then walk the published manifest's dependency actions
/// into the queue.  Failures are fatal unless `skip_failures` is set, in
/// which case the entry is recorded for a later re-drive.
pub fn plan_run(
    state: &mut PlannerState,
    repo: &Vec<String>,
    manifests: &Vec<(String, String)>,
    mappings: &Vec<(String, String)>,
    failing: &Vec<String>,
    skip_failures: bool,
) -> (r: Result<PlanReport, PlanError>)
    ensures
        walk_contract(
            old(state).seen.deep_view(),
            old(state).q.deep_view(),
            old(state).fails.deep_view(),
            *final(state),
            r,
            repo.deep_view(),
            manifests.deep_view(),
            mappings.deep_view(),
            failing.deep_view(),
            skip_failures,
        ),
{
    let ghost seen0 = state.seen.deep_view();
    let ghost qinit = state.q.deep_view();
    let ghost fails0 = state.fails.deep_view();
    let ghost hyp = resumes_next(
        qinit,
        seen0,
        repo.deep_view(),
        mappings.deep_view(),
        failing.deep_view(),
    );
    let ghost xnext = norm_spec(qinit[first_fresh(qinit, seen0)].fmri);
    let ghost universe = plan_universe(state.q.deep_view(), manifests.deep_view());
    let mut built: Vec<String> = Vec::new();
    let mut skipped: Vec<String> = Vec::new();
    proof {
        lemma_add_contains(
            norms_of(state.q.deep_view()),
            manifests_universe(manifests.deep_view()),
        );
        assert forall|j: int|
            0 <= j < state.q.deep_view().len() implies universe.contains(
            norm_spec(#[trigger] state.q.deep_view()[j].fmri),
        ) by {
            assert(norms_of(state.q.deep_view())[j] == norm_spec(state.q.deep_view()[j].fmri));
            assert(norms_of(state.q.deep_view()).contains(
                norm_spec(state.q.deep_view()[j].fmri),
            ));
        }
        assert forall|j: int|
            0 <= j < qinit.len() && !(#[trigger] qinit[j]).optional implies
            non_optional_reachable(qinit, manifests.deep_view(), norm_spec(qinit[j].fmri)) by {
            assert(0 <= j < qinit.len() && !qinit[j].optional && norm_spec(qinit[j].fmri)
                == norm_spec(qinit[j].fmri));
        }
        assert forall|j: int| 0 <= j < qinit.len() implies state.seen.deep_view().contains(
            norm_spec((#[trigger] qinit[j]).fmri),
        ) || queued_name(state.q.deep_view(), norm_spec(qinit[j].fmri)) by {
            assert(norm_spec((state.q.deep_view()[j]).fmri) == norm_spec(qinit[j].fmri));
        }
    }
    while state.q.len() > 0
        invariant
            seen0 == old(state).seen.deep_view(),
            qinit == old(state).q.deep_view(),
            hyp == resumes_next(
                qinit,
                seen0,
                repo.deep_view(),
                mappings.deep_view(),
                failing.deep_view(),
            ),
            xnext == norm_spec(qinit[first_fresh(qinit, seen0)].fmri),
            hyp ==> ({
                ||| (state.q.deep_view() == qinit && state.seen.deep_view() == seen0
                    && built@.len() == 0)
                ||| (built.deep_view().len() > 0 && built.deep_view()[0] == xnext)
            }),
            universe == plan_universe(old(state).q.deep_view(), manifests.deep_view()),
            forall|j: int|
                0 <= j < state.q.deep_view().len() ==> universe.contains(
                    norm_spec(#[trigger] state.q.deep_view()[j].fmri),
                ),
            forall|x: Seq<char>| seen0.contains(x) ==> state.seen.deep_view().contains(x),
            fails0 == old(state).fails.deep_view(),
            !skip_failures ==> state.fails@ == old(state).fails@,
            fails0.len() <= state.fails.deep_view().len(),
            forall|j: int|
                0 <= j < fails0.len() ==> #[trigger] state.fails.deep_view()[j] == fails0[j],
            forall|j: int|
                fails0.len() <= j < state.fails.deep_view().len() ==> fail_entry_cause(
                    #[trigger] state.fails.deep_view()[j],
                    state.seen.deep_view(),
                    manifests.deep_view(),
                    failing.deep_view(),
                    skip_failures,
                ),
            forall|j: int|
                0 <= j < state.q.deep_view().len() && !(#[trigger] state.q.deep_view()[j]).optional ==> non_optional_reachable(
                    qinit,
                    manifests.deep_view(),
                    norm_spec(state.q.deep_view()[j].fmri),
                ),
            forall|j: int|
                0 <= j < qinit.len() ==> state.seen.deep_view().contains(
                    norm_spec((#[trigger] qinit[j]).fmri),
                ) || queued_name(state.q.deep_view(), norm_spec(qinit[j].fmri)),
            forall|x: Seq<char>, ti: int|
                #[trigger] state.seen.deep_view().contains(x) && !seen0.contains(x)
                    && values_for(mappings.deep_view(), x).len() == 1 && x != "illumos"@
                    && (repo.deep_view().contains(x) || !failing.deep_view().contains(x))
                    && first_match(manifests.deep_view(), x) is Some
                    && crate::ips::manifest_model(first_match(manifests.deep_view(), x)->0)
                    is Ok && 0 <= ti < manifest_targets(
                    first_match(manifests.deep_view(), x)->0,
                ).len() ==> state.seen.deep_view().contains(
                    norm_spec((#[trigger] manifest_targets(
                        first_match(manifests.deep_view(), x)->0,
                    )[ti]).fmri),
                ) || queued_name(
                    state.q.deep_view(),
                    norm_spec(manifest_targets(first_match(manifests.deep_view(), x)->0)[ti].fmri),
                ),
            forall|x: Seq<char>|
                #[trigger] state.seen.deep_view().contains(x) && !seen0.contains(x) && buildable(
                    x,
                    repo.deep_view(),
                    mappings.deep_view(),
                    failing.deep_view(),
                ) ==> built.deep_view().contains(x),
            forall|x: Seq<char>|
                #[trigger] state.seen.deep_view().contains(x) && !seen0.contains(x)
                    && skip_failures && values_for(mappings.deep_view(), x).len() == 1 && x
                    != "illumos"@ && !repo.deep_view().contains(x) && failing.deep_view().contains(
                    x,
                ) ==> recorded_failure(state.fails.deep_view(), x),
            forall|x: Seq<char>|
                #[trigger] state.seen.deep_view().contains(x) && !seen0.contains(x)
                    && skip_failures && values_for(mappings.deep_view(), x).len() == 1 && x
                    != "illumos"@ && (repo.deep_view().contains(x)
                    || !failing.deep_view().contains(x)) && manifest_step_fails(
                    manifests.deep_view(),
                    x,
                ) ==> recorded_failure(state.fails.deep_view(), x),
            forall|j: int|
                0 <= j < built.deep_view().len() ==> built_ok(
                    #[trigger] built.deep_view()[j],
                    seen0,
                    state.seen.deep_view(),
                    repo.deep_view(),
                    mappings.deep_view(),
                    failing.deep_view(),
                ),
            forall|j: int|
                0 <= j < skipped.deep_view().len() ==> values_for(
                    mappings.deep_view(),
                    #[trigger] skipped.deep_view()[j],
                ).len() == 0,
        decreases count_unseen(universe, state.seen.deep_view()), state.q@.len(),
    {
        let ghost qpre = state.q.deep_view();
        let ghost seenpre = state.seen.deep_view();
        let ghost fpre = state.fails.deep_view();
        let next = state.take_next();
        proof {
            lemma_first_fresh_bounds(qpre, seenpre);
        }
        match next {
            None => {
                proof {
                    assert(state.seen.deep_view() == seenpre);
                    assert forall|y: Seq<char>| #[trigger] queued_name(qpre, y) implies state
                        .seen.deep_view().contains(y) by {
                        let k = choose|k: int|
                            0 <= k < qpre.len() && norm_spec((#[trigger] qpre[k]).fmri) == y;
                        assert(seenpre.contains(norm_spec(qpre[k].fmri)));
                    }
                }
            },
            Some((entry, n)) => {
                let ghost i = first_fresh(qpre, seenpre);
                proof {
                    assert(n@ == norm_spec(qpre[i].fmri));
                    assert(!seenpre.contains(n@));
                    assert(universe.contains(n@));
                    assert(state.seen.deep_view() == seenpre.push(n@));
                    lemma_count_unseen_strict(universe, seenpre, n@);
                    lemma_push_contains(seenpre, n@);
                    assert forall|j: int|
                        0 <= j < state.q.deep_view().len() implies universe.contains(
                        norm_spec(#[trigger] state.q.deep_view()[j].fmri),
                    ) by {
                        assert(state.q.deep_view()[j] == qpre.skip(i + 1)[j]);
                        assert(qpre.skip(i + 1)[j] == qpre[i + 1 + j]);
                    }
                    assert forall|j: int|
                        0 <= j < state.q.deep_view().len() && !(#[trigger] state.q.deep_view()[j]).optional implies non_optional_reachable(
                        qinit,
                        manifests.deep_view(),
                        norm_spec(state.q.deep_view()[j].fmri),
                    ) by {
                        assert(state.q.deep_view()[j] == qpre.skip(i + 1)[j]);
                        assert(qpre.skip(i + 1)[j] == qpre[i + 1 + j]);
                    }
                    assert forall|y: Seq<char>| #[trigger] queued_name(qpre, y) implies state
                        .seen.deep_view().contains(y) || queued_name(
                        state.q.deep_view(),
                        y,
                    ) by {
                        let k = choose|k: int|
                            0 <= k < qpre.len() && norm_spec((#[trigger] qpre[k]).fmri) == y;
                        if k < i {
                            assert(seenpre.contains(norm_spec(qpre[k].fmri)));
                        } else if k == i {
                        } else {
                            assert(state.q.deep_view()[k - i - 1] == qpre.skip(i + 1)[k - i
                                - 1]);
                            assert(qpre.skip(i + 1)[k - i - 1] == qpre[k]);
                            assert(norm_spec((state.q.deep_view()[k - i - 1]).fmri) == y);
                        }
                    }
                    assert forall|j: int|
                        0 <= j < built.deep_view().len() implies built_ok(
                        #[trigger] built.deep_view()[j],
                        seen0,
                        state.seen.deep_view(),
                        repo.deep_view(),
                        mappings.deep_view(),
                        failing.deep_view(),
                    ) by {
                        assert(seenpre.contains(built.deep_view()[j]));
                    }
                }
                let locs = lookup_values(mappings, n.as_str());
                if locs.len() == 0 {
                    proof {
                        assert(values_for(mappings.deep_view(), n@).len() == 0);
                    }
                    if entry.optional {
                        let ghost sk0 = skipped.deep_view();
                        skipped.push(n);
                        proof {
                            assert(skipped.deep_view() =~~= sk0.push(norm_spec(qpre[i].fmri)));
                            assert forall|x: Seq<char>|
                                #[trigger] state.seen.deep_view().contains(x) && !seen0.contains(
                                    x,
                                ) && skip_failures && values_for(mappings.deep_view(), x).len()
                                    == 1 && x != "illumos"@ && !repo.deep_view().contains(x)
                                    && failing.deep_view().contains(x) implies recorded_failure(
                                state.fails.deep_view(),
                                x,
                            ) by {
                                if x != n@ {
                                    assert(seenpre.contains(x));
                                    assert(recorded_failure(fpre, x));
                                    let w = choose|w: int| 0 <= w < fpre.len() && norm_spec((#[trigger] fpre[w]).fmri) == x;
                                    assert(state.fails.deep_view()[w] == fpre[w]);
                                }
                            }
                            assert forall|x: Seq<char>|
                                #[trigger] state.seen.deep_view().contains(x) && !seen0.contains(
                                    x,
                                ) && skip_failures && values_for(mappings.deep_view(), x).len()
                                    == 1 && x != "illumos"@ && (repo.deep_view().contains(x)
                                    || !failing.deep_view().contains(x)) && manifest_step_fails(
                                    manifests.deep_view(),
                                    x,
                                ) implies recorded_failure(state.fails.deep_view(), x) by {
                                if x != n@ {
                                    assert(seenpre.contains(x));
                                    assert(recorded_failure(fpre, x));
                                    let w = choose|w: int| 0 <= w < fpre.len() && norm_spec((#[trigger] fpre[w]).fmri) == x;
                                    assert(state.fails.deep_view()[w] == fpre[w]);
                                }
                            }
                        }
                        continue;
                    }
                    proof {
                        assert(!entry@.optional && qpre[i] == entry@);
                        assert(non_optional_reachable(qinit, manifests.deep_view(), n@));
                    }
                    return Err(PlanError::NoMapping(n));
                }
                if locs.len() > 1 {
                    return Err(PlanError::AmbiguousMapping(n));
                }
                if str_eq(n.as_str(), "illumos") {
                    proof {
                        assert forall|x: Seq<char>|
                            #[trigger] state.seen.deep_view().contains(x) && !seen0.contains(x)
                                && buildable(x, repo.deep_view(), mappings.deep_view(), failing.deep_view())
                                implies built.deep_view().contains(x) by {
                            if x != n@ {
                                assert(seenpre.contains(x));
                            }
                        }
                        assert forall|x: Seq<char>|
                            #[trigger] state.seen.deep_view().contains(x) && !seen0.contains(x) && skip_failures
                                && values_for(mappings.deep_view(), x).len() == 1 && x != "illumos"@
                                && !repo.deep_view().contains(x) && failing.deep_view().contains(x) implies
                            recorded_failure(state.fails.deep_view(), x) by {
                            if x != n@ {
                                assert(seenpre.contains(x));
                                assert(recorded_failure(fpre, x));
                                let w = choose|w: int| 0 <= w < fpre.len() && norm_spec((#[trigger] fpre[w]).fmri) == x;
                                assert(state.fails.deep_view()[w] == fpre[w]);
                            }
                        }
                        assert forall|x: Seq<char>|
                            #[trigger] state.seen.deep_view().contains(x) && !seen0.contains(x) && skip_failures
                                && values_for(mappings.deep_view(), x).len() == 1 && x != "illumos"@
                                && (repo.deep_view().contains(x) || !failing.deep_view().contains(x))
                                && manifest_step_fails(manifests.deep_view(), x) implies recorded_failure(
                            state.fails.deep_view(),
                            x,
                        ) by {
                            if x != n@ {
                                assert(seenpre.contains(x));
                                assert(recorded_failure(fpre, x));
                                let w = choose|w: int| 0 <= w < fpre.len() && norm_spec((#[trigger] fpre[w]).fmri) == x;
                                assert(state.fails.deep_view()[w] == fpre[w]);
                            }
                        }
                    }
                    continue;
                }
                if !vec_contains_string(repo, n.as_str()) {
                    if vec_contains_string(failing, n.as_str()) {
                        if skip_failures {
                            let ghost f0 = state.fails.deep_view();
                            state.fails.push(entry);
                            proof {
                                assert(state.fails.deep_view() =~~= f0.push(qpre[i]));
                                lemma_push_contains(f0, qpre[i]);
                                assert(norm_spec(qpre[i].fmri) == n@);
                                assert(state.fails.deep_view()[f0.len() as int] == qpre[i]);
                                assert(recorded_failure(state.fails.deep_view(), n@));
                                assert(fail_entry_cause(
                                    qpre[i],
                                    state.seen.deep_view(),
                                    manifests.deep_view(),
                                    failing.deep_view(),
                                    skip_failures,
                                ));
                                assert forall|x: Seq<char>|
                                    #[trigger] state.seen.deep_view().contains(x) && !seen0.contains(x)
                                        && buildable(x, repo.deep_view(), mappings.deep_view(), failing.deep_view())
                                        implies built.deep_view().contains(x) by {
                                    if x != n@ {
                                        assert(seenpre.contains(x));
                                    }
                                }
                                assert forall|x: Seq<char>|
                                    #[trigger] state.seen.deep_view().contains(x) && !seen0.contains(x) && skip_failures
                                        && values_for(mappings.deep_view(), x).len() == 1 && x != "illumos"@
                                        && !repo.deep_view().contains(x) && failing.deep_view().contains(x) implies
                                    recorded_failure(state.fails.deep_view(), x) by {
                                    if x != n@ {
                                        assert(seenpre.contains(x));
                                        assert(recorded_failure(fpre, x));
                                        let w = choose|w: int| 0 <= w < fpre.len() && norm_spec((#[trigger] fpre[w]).fmri) == x;
                                        assert(state.fails.deep_view()[w] == fpre[w]);
                                    }
                                }
                                assert forall|x: Seq<char>|
                                    #[trigger] state.seen.deep_view().contains(x) && !seen0.contains(x) && skip_failures
                                        && values_for(mappings.deep_view(), x).len() == 1 && x != "illumos"@
                                        && (repo.deep_view().contains(x) || !failing.deep_view().contains(x))
                                        && manifest_step_fails(manifests.deep_view(), x) implies recorded_failure(
                                    state.fails.deep_view(),
                                    x,
                                ) by {
                                    if x != n@ {
                                        assert(seenpre.contains(x));
                                        assert(recorded_failure(fpre, x));
                                        let w = choose|w: int| 0 <= w < fpre.len() && norm_spec((#[trigger] fpre[w]).fmri) == x;
                                        assert(state.fails.deep_view()[w] == fpre[w]);
                                    }
                                }
                            }
                            continue;
                        }
                        let loc = locs[0].clone();
                        return Err(PlanError::BuildFailed(n, loc));
                    }
                    let ghost b0 = built.deep_view();
                    built.push(n.clone());
                    proof {
                        assert(built.deep_view() =~~= b0.push(n@));
                        lemma_push_contains(b0, n@);
                        assert(built_ok(
                            n@,
                            seen0,
                            state.seen.deep_view(),
                            repo.deep_view(),
                            mappings.deep_view(),
                            failing.deep_view(),
                        ));
                    }
                }
                match find_first(manifests, n.as_str()) {
                    None => {
                        if skip_failures {
                            let ghost f0 = state.fails.deep_view();
                            state.fails.push(entry);
                            proof {
                                assert(state.fails.deep_view() =~~= f0.push(qpre[i]));
                                lemma_push_contains(f0, qpre[i]);
                                assert(norm_spec(qpre[i].fmri) == n@);
                                assert(state.fails.deep_view()[f0.len() as int] == qpre[i]);
                                assert(recorded_failure(state.fails.deep_view(), n@));
                                assert(manifest_step_fails(manifests.deep_view(), n@));
                                assert(fail_entry_cause(
                                    qpre[i],
                                    state.seen.deep_view(),
                                    manifests.deep_view(),
                                    failing.deep_view(),
                                    skip_failures,
                                ));
                                assert forall|x: Seq<char>|
                                    #[trigger] state.seen.deep_view().contains(x) && !seen0.contains(x)
                                        && buildable(x, repo.deep_view(), mappings.deep_view(), failing.deep_view())
                                        implies built.deep_view().contains(x) by {
                                    if x != n@ {
                                        assert(seenpre.contains(x));
                                    }
                                }
                                assert forall|x: Seq<char>|
                                    #[trigger] state.seen.deep_view().contains(x) && !seen0.contains(x) && skip_failures
                                        && values_for(mappings.deep_view(), x).len() == 1 && x != "illumos"@
                                        && !repo.deep_view().contains(x) && failing.deep_view().contains(x) implies
                                    recorded_failure(state.fails.deep_view(), x) by {
                                    if x != n@ {
                                        assert(seenpre.contains(x));
                                        assert(recorded_failure(fpre, x));
                                        let w = choose|w: int| 0 <= w < fpre.len() && norm_spec((#[trigger] fpre[w]).fmri) == x;
                                        assert(state.fails.deep_view()[w] == fpre[w]);
                                    }
                                }
                                assert forall|x: Seq<char>|
                                    #[trigger] state.seen.deep_view().contains(x) && !seen0.contains(x) && skip_failures
                                        && values_for(mappings.deep_view(), x).len() == 1 && x != "illumos"@
                                        && (repo.deep_view().contains(x) || !failing.deep_view().contains(x))
                                        && manifest_step_fails(manifests.deep_view(), x) implies recorded_failure(
                                    state.fails.deep_view(),
                                    x,
                                ) by {
                                    if x != n@ {
                                        assert(seenpre.contains(x));
                                        assert(recorded_failure(fpre, x));
                                        let w = choose|w: int| 0 <= w < fpre.len() && norm_spec((#[trigger] fpre[w]).fmri) == x;
                                        assert(state.fails.deep_view()[w] == fpre[w]);
                                    }
                                }
                            }
                            continue;
                        }
                        return Err(PlanError::ManifestUnavailable(n));
                    },
                    Some(text) => {
                        match crate::ips::parse_manifest(text.as_str()) {
                            Err(me) => {
                                if skip_failures {
                                    let ghost f0 = state.fails.deep_view();
                                    state.fails.push(entry);
                                    proof {
                                        assert(state.fails.deep_view() =~~= f0.push(qpre[i]));
                                        lemma_push_contains(f0, qpre[i]);
                                        assert(norm_spec(qpre[i].fmri) == n@);
                                        assert(state.fails.deep_view()[f0.len() as int]
                                            == qpre[i]);
                                        assert(recorded_failure(state.fails.deep_view(), n@));
                                        assert(manifest_step_fails(manifests.deep_view(), n@));
                                        assert(fail_entry_cause(
                                            qpre[i],
                                            state.seen.deep_view(),
                                            manifests.deep_view(),
                                            failing.deep_view(),
                                            skip_failures,
                                        ));
                                        assert forall|x: Seq<char>|
                                            #[trigger] state.seen.deep_view().contains(x) && !seen0.contains(x)
                                                && buildable(x, repo.deep_view(), mappings.deep_view(), failing.deep_view())
                                                implies built.deep_view().contains(x) by {
                                            if x != n@ {
                                                assert(seenpre.contains(x));
                                            }
                                        }
                                        assert forall|x: Seq<char>|
                                            #[trigger] state.seen.deep_view().contains(x) && !seen0.contains(x) && skip_failures
                                                && values_for(mappings.deep_view(), x).len() == 1 && x != "illumos"@
                                                && !repo.deep_view().contains(x) && failing.deep_view().contains(x) implies
                                            recorded_failure(state.fails.deep_view(), x) by {
                                            if x != n@ {
                                                assert(seenpre.contains(x));
                                                assert(recorded_failure(fpre, x));
                                                let w = choose|w: int| 0 <= w < fpre.len() && norm_spec((#[trigger] fpre[w]).fmri) == x;
                                                assert(state.fails.deep_view()[w] == fpre[w]);
                                            }
                                        }
                                        assert forall|x: Seq<char>|
                                            #[trigger] state.seen.deep_view().contains(x) && !seen0.contains(x) && skip_failures
                                                && values_for(mappings.deep_view(), x).len() == 1 && x != "illumos"@
                                                && (repo.deep_view().contains(x) || !failing.deep_view().contains(x))
                                                && manifest_step_fails(manifests.deep_view(), x) implies recorded_failure(
                                            state.fails.deep_view(),
                                            x,
                                        ) by {
                                            if x != n@ {
                                                assert(seenpre.contains(x));
                                                assert(recorded_failure(fpre, x));
                                                let w = choose|w: int| 0 <= w < fpre.len() && norm_spec((#[trigger] fpre[w]).fmri) == x;
                                                assert(state.fails.deep_view()[w] == fpre[w]);
                                            }
                                        }
                                    }
                                    continue;
                                }
                                return Err(PlanError::ManifestUnparsable(n, me));
                            },
                            Ok(acts) => {
                                let ghost qq = state.q.deep_view();
                                let ghost seennow = state.seen.deep_view();
                                state.enqueue_new(&acts);
                                proof {
                                    let fresh = fresh_targets(
                                        all_targets(acts.deep_view()),
                                        seennow,
                                    );
                                    lemma_fresh_targets_sub(all_targets(acts.deep_view()), seennow);
                                    lemma_first_match_props(manifests.deep_view(), n@);
                                    let mj = choose|mj: int|
                                        0 <= mj < manifests.deep_view().len() && (
                                        #[trigger] manifests.deep_view()[mj]).0 == n@
                                            && manifests.deep_view()[mj].1 == text@;
                                    lemma_manifests_universe_covers(manifests.deep_view(), mj);
                                    lemma_add_contains(
                                        norms_of(old(state).q.deep_view()),
                                        manifests_universe(manifests.deep_view()),
                                    );
                                    lemma_first_match_values(manifests.deep_view(), n@);
                                    assert(!manifest_step_fails(manifests.deep_view(), n@));
                                    assert(manifest_targets(text@) == all_targets(
                                        acts.deep_view(),
                                    ));
                                    assert forall|j: int|
                                        0 <= j < state.q.deep_view().len() implies universe
                                        .contains(
                                        norm_spec(#[trigger] state.q.deep_view()[j].fmri),
                                    ) by {
                                        if j < qq.len() {
                                            assert(state.q.deep_view()[j] == qq[j]);
                                        } else {
                                            let e = state.q.deep_view()[j];
                                            assert(e == fresh[j - qq.len()]);
                                            assert(fresh.contains(e));
                                            assert(all_targets(acts.deep_view()).contains(e));
                                            let w = choose|w: int|
                                                0 <= w < all_targets(acts.deep_view()).len()
                                                    && all_targets(acts.deep_view())[w] == e;
                                            assert(norms_of(manifest_targets(text@))[w]
                                                == norm_spec(e.fmri));
                                            assert(norms_of(manifest_targets(text@)).contains(
                                                norm_spec(e.fmri),
                                            ));
                                            assert(norms_of(
                                                manifest_targets(manifests.deep_view()[mj].1),
                                            ).contains(norm_spec(e.fmri)));
                                            assert(manifests_universe(
                                                manifests.deep_view(),
                                            ).contains(norm_spec(e.fmri)));
                                        }
                                    }
                                    assert forall|y: Seq<char>|
                                        #[trigger] queued_name(qq, y) implies queued_name(
                                        state.q.deep_view(),
                                        y,
                                    ) by {
                                        let k = choose|k: int|
                                            0 <= k < qq.len() && norm_spec(
                                                (#[trigger] qq[k]).fmri,
                                            ) == y;
                                        assert(state.q.deep_view()[k] == qq[k]);
                                    }
                                    assert forall|ti: int|
                                        0 <= ti < all_targets(acts.deep_view()).len() implies
                                        state.seen.deep_view().contains(
                                        norm_spec(
                                            (#[trigger] all_targets(acts.deep_view())[ti]).fmri,
                                        ),
                                    ) || queued_name(
                                        state.q.deep_view(),
                                        norm_spec(all_targets(acts.deep_view())[ti].fmri),
                                    ) by {
                                        let t = all_targets(acts.deep_view())[ti];
                                        if !seennow.contains(norm_spec(t.fmri)) {
                                            lemma_fresh_targets_complete(
                                                all_targets(acts.deep_view()),
                                                seennow,
                                                ti,
                                            );
                                            let w = choose|w: int|
                                                0 <= w < fresh.len() && fresh[w] == t;
                                            assert(state.q.deep_view()[qq.len() + w]
                                                == fresh[w]);
                                            assert(norm_spec(
                                                (state.q.deep_view()[qq.len() + w]).fmri,
                                            ) == norm_spec(t.fmri));
                                        }
                                    }
                                    assert forall|j: int|
                                        0 <= j < state.q.deep_view().len() && !(
                                        #[trigger] state.q.deep_view()[j]).optional implies
                                        non_optional_reachable(
                                        qinit,
                                        manifests.deep_view(),
                                        norm_spec(state.q.deep_view()[j].fmri),
                                    ) by {
                                        if j < qq.len() {
                                            assert(state.q.deep_view()[j] == qq[j]);
                                        } else {
                                            let e = state.q.deep_view()[j];
                                            assert(e == fresh[j - qq.len()]);
                                            assert(fresh.contains(e));
                                            assert(all_targets(acts.deep_view()).contains(e));
                                            let w = choose|w: int|
                                                0 <= w < all_targets(acts.deep_view()).len()
                                                    && all_targets(acts.deep_view())[w] == e;
                                            assert(manifest_targets(manifests.deep_view()[mj].1)[w] == e);
                                        }
                                    }
                                    assert forall|x: Seq<char>|
                                        #[trigger] state.seen.deep_view().contains(x) && !seen0.contains(x)
                                            && buildable(x, repo.deep_view(), mappings.deep_view(), failing.deep_view())
                                            implies built.deep_view().contains(x) by {
                                        if x != n@ {
                                            assert(seenpre.contains(x));
                                        }
                                    }
                                    assert forall|x: Seq<char>|
                                        #[trigger] state.seen.deep_view().contains(x) && !seen0.contains(x) && skip_failures
                                            && values_for(mappings.deep_view(), x).len() == 1 && x != "illumos"@
                                            && !repo.deep_view().contains(x) && failing.deep_view().contains(x) implies
                                        recorded_failure(state.fails.deep_view(), x) by {
                                        if x != n@ {
                                            assert(seenpre.contains(x));
                                            assert(recorded_failure(fpre, x));
                                            let w = choose|w: int| 0 <= w < fpre.len() && norm_spec((#[trigger] fpre[w]).fmri) == x;
                                            assert(state.fails.deep_view()[w] == fpre[w]);
                                        }
                                    }
                                    assert forall|x: Seq<char>|
                                        #[trigger] state.seen.deep_view().contains(x) && !seen0.contains(x) && skip_failures
                                            && values_for(mappings.deep_view(), x).len() == 1 && x != "illumos"@
                                            && (repo.deep_view().contains(x) || !failing.deep_view().contains(x))
                                            && manifest_step_fails(manifests.deep_view(), x) implies recorded_failure(
                                        state.fails.deep_view(),
                                        x,
                                    ) by {
                                        if x != n@ {
                                            assert(seenpre.contains(x));
                                            assert(recorded_failure(fpre, x));
                                            let w = choose|w: int| 0 <= w < fpre.len() && norm_spec((#[trigger] fpre[w]).fmri) == x;
                                            assert(state.fails.deep_view()[w] == fpre[w]);
                                        }
                                    }
                                }
                            },
                        }
                    },
                }
            },
        }
    }
    Ok(PlanReport { built, skipped })
}

/// Start a planning run from seed package references: the walk of
/// `plan_run` from a fresh state whose queue holds the seeds
/// non-optionally and whose seen set and fails queue are empty, with every
/// guarantee of `walk_contract` stated over that starting point.
pub fn plan(
    seed: &Vec<String>,
    repo: &Vec<String>,
    manifests: &Vec<(String, String)>,
    mappings: &Vec<(String, String)>,
    failing: &Vec<String>,
    skip_failures: bool,
) -> (r: (PlannerState, Result<PlanReport, PlanError>))
    ensures
        walk_contract(
            Seq::empty(),
            seed.deep_view().map_values(|f: Seq<char>| EntryModel { fmri: f, optional: false }),
            Seq::empty(),
            r.0,
            r.1,
            repo.deep_view(),
            manifests.deep_view(),
            mappings.deep_view(),
            failing.deep_view(),
            skip_failures,
        ),
{
    let mut state = PlannerState::new(seed);
    proof {
        assert(state.seen.deep_view() =~= Seq::<Seq<char>>::empty());
        assert(state.fails.deep_view() =~= Seq::<EntryModel>::empty());
    }
    let outcome = plan_run(&mut state, repo, manifests, mappings, failing, skip_failures);
    (state, outcome)
}

/// Continue a planning run from a persisted state: the walk of `plan_run`
/// with every guarantee of `walk_contract` stated over the given state's
/// seen set, queue, and fails queue.
pub fn resume(
    state: PlannerState,
    repo: &Vec<String>,
    manifests: &Vec<(String, String)>,
    mappings: &Vec<(String, String)>,
    failing: &Vec<String>,
    skip_failures: bool,
) -> (r: (PlannerState, Result<PlanReport, PlanError>))
    ensures
        walk_contract(
            state.seen.deep_view(),
            state.q.deep_view(),
            state.fails.deep_view(),
            r.0,
            r.1,
            repo.deep_view(),
            manifests.deep_view(),
            mappings.deep_view(),
            failing.deep_view(),
            skip_failures,
        ),
{
    let mut st = state;
    let outcome = plan_run(&mut st, repo, manifests, mappings, failing, skip_failures);
    (st, outcome)
}

/// Idempotent re-planning: when every package recorded as attempted by a
/// completed walk already has a build in the repository, that walk built
/// nothing.  Together with the walk's own contract — a completed walk ends
/// with an empty queue, and builds only packages the repository lacks — this
/// is why planning twice over a repository that already holds every
/// transitively required package performs zero builds both times.
pub proof fn lemma_replan_builds_nothing(
    built: Seq<Seq<char>>,
    seen0: Seq<Seq<char>>,
    seen1: Seq<Seq<char>>,
    repo: Seq<Seq<char>>,
    maps: Seq<(Seq<char>, Seq<char>)>,
    failing: Seq<Seq<char>>,
)
    requires
        forall|j: int|
            0 <= j < built.len() ==> built_ok(#[trigger] built[j], seen0, seen1, repo, maps,
            failing),
        forall|x: Seq<char>| seen1.contains(x) ==> repo.contains(x),
    ensures
        built.len() == 0,
{
    if built.len() > 0 {
        assert(built_ok(built[0], seen0, seen1, repo, maps, failing));
        assert(seen1.contains(built[0]));
        assert(repo.contains(built[0]));
        assert(false);
    }
}

/// Incorporate exclusion: a manifest whose dependency actions are all of
/// the `Incorporate` kind contributes nothing to the work queue, so none of
/// its targets is ever enqueued.
pub proof fn lemma_incorporate_never_enqueued(acts: Seq<ActionModel>)
    requires
        forall|j: int|
            0 <= j < acts.len() ==> match #[trigger] acts[j] {
                ActionModel::Depend(d) => d.type_ is Incorporate,
                ActionModel::Unknown(_, _, _) => true,
            },
    ensures
        all_targets(acts).len() == 0,
    decreases acts.len(),
{
    if acts.len() > 0 {
        assert(forall|j: int|
            0 <= j < acts.drop_last().len() ==> acts.drop_last()[j] == acts[j]);
        lemma_incorporate_never_enqueued(acts.drop_last());
        assert(acts[acts.len() - 1] == acts.last());
        assert(act_targets(acts.last()).len() == 0);
    }
}

/// Optional edges are non-fatal: a package that has no source-location
/// mapping is never reported as built, however it was reached; when it was
/// reached only optionally, the walk completes and merely records the skip.
pub proof fn lemma_unmapped_never_built(
    built: Seq<Seq<char>>,
    seen0: Seq<Seq<char>>,
    seen1: Seq<Seq<char>>,
    repo: Seq<Seq<char>>,
    maps: Seq<(Seq<char>, Seq<char>)>,
    failing: Seq<Seq<char>>,
    name: Seq<char>,
)
    requires
        forall|j: int|
            0 <= j < built.len() ==> built_ok(#[trigger] built[j], seen0, seen1, repo, maps,
            failing),
        values_for(maps, name).len() == 0,
    ensures
        !built.contains(name),
{
    if built.contains(name) {
        let w = choose|w: int| 0 <= w < built.len() && built[w] == name;
        assert(built_ok(built[w], seen0, seen1, repo, maps, failing));
        assert(false);
    }
}

} // verus!
