//! The query planner: one executor per table, the iterables handed to the
//! row-processing caller, and the staged iteration protocol of similarity
//! search over a full scan.
use vstd::prelude::*;

use std::sync::atomic::{AtomicU64, Ordering};

use crate::plan::{
    build, build_spec, with_view, ExprRef, IndexOption, IndexRef, Node, Plan, PlanView, RangeQueryView,
    RangeValue, With, WithView,
};
use crate::DocId;

verus! {

/// A handle on one iteration unit of an executor.
pub type IteratorRef = usize;

/// One registered iteration unit.
pub enum IteratorEntry {
    Single(Option<ExprRef>, IndexOption),
    Range(Vec<ExprRef>, IndexRef, RangeValue, RangeValue),
}

pub enum EntryView {
    Single(Option<ExprRef>, IndexOption),
    Range(Seq<ExprRef>, IndexRef, RangeValue, RangeValue),
}

impl View for IteratorEntry {
    type V = EntryView;

    open spec fn view(&self) -> EntryView {
        match self {
            IteratorEntry::Single(e, io) => EntryView::Single(*e, *io),
            IteratorEntry::Range(es, ix, f, t) => EntryView::Range(es@, *ix, *f, *t),
        }
    }
}

/// A scored candidate of a brute-force similarity search; a smaller
/// distance ranks first.
#[derive(Clone, Copy, Debug, PartialEq, Eq, Structural)]
pub struct KnnCandidate {
    pub doc: DocId,
    pub distance: u64,
}

/// Work handed to the row-processing caller.
pub enum Iterable {
    /// Scan the whole table.
    Table(String),
    /// Run the iterator of the table's executor.
    Index(String, IteratorRef),
}

pub enum IterableView {
    Table(Seq<char>),
    Index(Seq<char>, IteratorRef),
}

impl View for Iterable {
    type V = IterableView;

    open spec fn view(&self) -> IterableView {
        match self {
            Iterable::Table(t) => IterableView::Table(t@),
            Iterable::Index(t, r) => IterableView::Index(t@, *r),
        }
    }
}

/// Collects the iterables of a query, in the order they are handed over.
pub struct IterableSink {
    items: Vec<Iterable>,
}

impl View for IterableSink {
    type V = Seq<IterableView>;

    closed spec fn view(&self) -> Seq<IterableView> {
        self.items@.map_values(|i: Iterable| i@)
    }
}

impl IterableSink {
    pub fn new() -> (r: IterableSink)
        ensures
            r@ == Seq::<IterableView>::empty(),
    {
        let r = IterableSink { items: Vec::new() };
        assert(r@ =~= Seq::<IterableView>::empty());
        r
    }

    pub fn ingest(&mut self, i: Iterable)
        ensures
            final(self)@ == old(self)@.push(i@),
    {
        let ghost v = i@;
        self.items.push(i);
        assert(final(self)@ =~= old(self)@.push(v));
    }

    pub fn len(&self) -> (r: usize)
        ensures
            r == self@.len(),
    {
        self.items.len()
    }

    pub fn get(&self, i: usize) -> (r: &Iterable)
        requires
            i < self@.len(),
        ensures
            r@ == self@[i as int],
    {
        &self.items[i]
    }
}

pub struct ExecutorView {
    pub table: Seq<char>,
    pub entries: Seq<EntryView>,
    pub knn: Seq<ExprRef>,
    pub k: u32,
    pub candidates: Seq<KnnCandidate>,
}

/// Whether `s` is ranked: distances never decrease.
pub open spec fn ranked(s: Seq<KnnCandidate>) -> bool {
    forall|i: int, j: int| 0 <= i < j < s.len() ==> s[i].distance <= s[j].distance
}

/// The number of leading candidates of `s` at or below distance `d`.
pub open spec fn rank_of(s: Seq<KnnCandidate>, d: u64) -> int
    decreases s.len(),
{
    if s.len() == 0 || s[0].distance > d {
        0
    } else {
        1 + rank_of(s.drop_first(), d)
    }
}

/// `c` placed after every candidate at or below its distance, and the
/// list then cut to its first `k`.
pub open spec fn with_candidate(s: Seq<KnnCandidate>, c: KnnCandidate, k: u32) -> Seq<KnnCandidate> {
    let t = s.insert(rank_of(s, c.distance), c);
    if t.len() > k {
        t.subrange(0, k as int)
    } else {
        t
    }
}

/// The registered iterators of one table, and its similarity work.
pub struct QueryExecutor {
    table: String,
    entries: Vec<IteratorEntry>,
    knn_expressions: Vec<ExprRef>,
    knn_k: u32,
    candidates: Vec<KnnCandidate>,
}

impl View for QueryExecutor {
    type V = ExecutorView;

    closed spec fn view(&self) -> ExecutorView {
        ExecutorView {
            table: self.table@,
            entries: self.entries@.map_values(|e: IteratorEntry| e@),
            knn: self.knn_expressions@,
            k: self.knn_k,
            candidates: self.candidates@,
        }
    }
}

proof fn lemma_rank_of_bound(s: Seq<KnnCandidate>, d: u64)
    ensures
        0 <= rank_of(s, d) <= s.len(),
    decreases s.len(),
{
    if s.len() > 0 && s[0].distance <= d {
        lemma_rank_of_bound(s.drop_first(), d);
    }
}

proof fn lemma_rank_of_ranked(s: Seq<KnnCandidate>, d: u64)
    requires
        ranked(s),
    ensures
        0 <= rank_of(s, d) <= s.len(),
        forall|i: int| 0 <= i < rank_of(s, d) ==> s[i].distance <= d,
        forall|i: int| rank_of(s, d) <= i < s.len() ==> s[i].distance > d,
    decreases s.len(),
{
    lemma_rank_of_bound(s, d);
    if s.len() > 0 && s[0].distance <= d {
        let t = s.drop_first();
        lemma_rank_of_ranked(t, d);
        assert forall|i: int| 0 <= i < rank_of(s, d) implies s[i].distance <= d by {
            if i > 0 {
                assert(s[i] == t[i - 1]);
            }
        }
        assert forall|i: int| rank_of(s, d) <= i < s.len() implies s[i].distance > d by {
            assert(s[i] == t[i - 1]);
        }
    }
}

impl QueryExecutor {
    pub fn new(table: String, knn_expressions: Vec<ExprRef>, knn_k: u32) -> (r: QueryExecutor)
        ensures
            r@ == (ExecutorView { table: table@, entries: Seq::empty(), knn: knn_expressions@, k: knn_k, candidates: Seq::empty() }),
    {
        let r = QueryExecutor { table, entries: Vec::new(), knn_expressions, knn_k, candidates: Vec::new() };
        assert(r@.entries =~= Seq::<EntryView>::empty());
        r
    }

    pub closed spec fn wf(&self) -> bool {
        ranked(self.candidates@) && self.candidates@.len() <= self.knn_k
    }

    pub fn table(&self) -> (r: &String)
        ensures
            r@ == self@.table,
    {
        &self.table
    }

    /// Registers an entry; its handle is its position.
    pub fn add_iterator(&mut self, e: IteratorEntry) -> (r: IteratorRef)
        requires
            old(self).wf(),
        ensures
            final(self).wf(),
            r == old(self)@.entries.len(),
            final(self)@ == (ExecutorView { entries: old(self)@.entries.push(e@), ..old(self)@ }),
    {
        let r = self.entries.len();
        let ghost v = e@;
        self.entries.push(e);
        assert(final(self)@.entries =~= old(self)@.entries.push(v));
        r
    }

    pub fn get_iterator(&self, r: IteratorRef) -> (e: Option<&IteratorEntry>)
        ensures
            match e {
                Some(x) => r < self@.entries.len() && x@ == self@.entries[r as int],
                None => r >= self@.entries.len(),
            },
    {
        if r < self.entries.len() {
            Some(&self.entries[r])
        } else {
            None
        }
    }

    pub fn has_knn(&self) -> (r: bool)
        ensures
            r == (self@.knn.len() > 0),
    {
        self.knn_expressions.len() > 0
    }

    /// Scores one more candidate into the brute-force ranking, which keeps
    /// the `k` nearest; among equal distances the earlier stays ahead.
    pub fn collect_knn(&mut self, c: KnnCandidate)
        requires
            old(self).wf(),
        ensures
            final(self).wf(),
            final(self)@ == (ExecutorView { candidates: with_candidate(old(self)@.candidates, c, old(self)@.k), ..old(self)@ }),
    {
        let ghost s = self.candidates@;
        proof {
            lemma_rank_of_ranked(s, c.distance);
        }
        let mut i: usize = 0;
        while i < self.candidates.len() && self.candidates[i].distance <= c.distance
            invariant
                self.candidates@ == s,
                ranked(s),
                0 <= rank_of(s, c.distance) <= s.len(),
                forall|j: int| 0 <= j < rank_of(s, c.distance) ==> s[j].distance <= c.distance,
                forall|j: int| rank_of(s, c.distance) <= j < s.len() ==> s[j].distance > c.distance,
                i <= rank_of(s, c.distance),
            decreases s.len() - i,
        {
            i = i + 1;
        }
        assert(i == rank_of(s, c.distance));
        self.candidates.insert(i, c);
        let ghost t = self.candidates@;
        assert(t == s.insert(i as int, c));
        assert(ranked(t)) by {
            assert forall|a: int, b: int| 0 <= a < b < t.len() implies t[a].distance <= t[b].distance by {
                if b < i {
                } else if b == i {
                    assert(t[a] == s[a]);
                } else if a < i {
                    assert(t[b] == s[b - 1]);
                } else if a == i {
                    assert(t[b] == s[b - 1]);
                } else {
                    assert(t[a] == s[a - 1] && t[b] == s[b - 1]);
                }
            }
        }
        if self.candidates.len() > self.knn_k as usize {
            self.candidates.truncate(self.knn_k as usize);
        }
    }

    /// The ranked candidates of the brute-force search.
    pub fn build_bruteforce_knn_result(&self) -> (r: Vec<KnnCandidate>)
        ensures
            r@ == self@.candidates,
    {
        let mut out: Vec<KnnCandidate> = Vec::new();
        let mut i: usize = 0;
        while i < self.candidates.len()
            invariant
                i <= self.candidates@.len(),
                out@ == self.candidates@.subrange(0, i as int),
            decreases self.candidates@.len() - i,
        {
            out.push(self.candidates[i]);
            i = i + 1;
            assert(out@ =~= self.candidates@.subrange(0, i as int));
        }
        assert(out@ =~= self.candidates@);
        out
    }
}

/// What the tree builder reports for one table: the analysed condition,
/// the index that gives the order, and the similarity expressions with
/// the number of neighbours they ask for.
pub struct TreeOutput {
    pub root: Option<Node>,
    pub order: Option<IndexOption>,
    pub knn_expressions: Vec<ExprRef>,
    pub knn_k: u32,
}

/// The steps of a query's iteration workflow.
#[derive(Clone, Copy, Debug, PartialEq, Eq, Structural)]
pub enum Stage {
    Iterate,
    CollectKnn,
    BuildKnn,
}

/// Brute-force similarity results: the ranked candidates of each table.
pub type KnnBruteForceResults = Vec<(String, Vec<KnnCandidate>)>;

pub type KnnResultsView = Seq<(Seq<char>, Seq<KnnCandidate>)>;

pub open spec fn results_view(r: KnnBruteForceResults) -> KnnResultsView {
    r@.map_values(|p: (String, Vec<KnnCandidate>)| (p.0@, p.1@))
}

/// A stage handed to the caller.
pub enum IterationStage {
    Iterate(Option<KnnBruteForceResults>),
    CollectKnn,
    BuildKnn,
}

pub enum IterationStageView {
    Iterate(Option<KnnResultsView>),
    CollectKnn,
    BuildKnn,
}

impl View for IterationStage {
    type V = IterationStageView;

    open spec fn view(&self) -> IterationStageView {
        match self {
            IterationStage::Iterate(None) => IterationStageView::Iterate(None),
            IterationStage::Iterate(Some(r)) => IterationStageView::Iterate(Some(results_view(*r))),
            IterationStage::CollectKnn => IterationStageView::CollectKnn,
            IterationStage::BuildKnn => IterationStageView::BuildKnn,
        }
    }
}

pub struct PlannerView {
    pub with: Option<WithView>,
    pub executors: Seq<ExecutorView>,
    pub requires_distinct: bool,
    pub fallbacks: Seq<Seq<char>>,
    pub workflow: Seq<Stage>,
    pub orders: Seq<IteratorRef>,
}

/// The position of the executor of `t`, if there is one.
pub open spec fn find_executor(es: Seq<ExecutorView>, t: Seq<char>) -> Option<int>
    decreases es.len(),
{
    if es.len() == 0 {
        None
    } else if es.last().table == t {
        Some(es.len() - 1)
    } else {
        find_executor(es.drop_last(), t)
    }
}

/// `es` with the executor of `e.table` replaced by `e`, or `e` appended.
pub open spec fn put_executor(es: Seq<ExecutorView>, e: ExecutorView) -> Seq<ExecutorView> {
    match find_executor(es, e.table) {
        Some(i) => es.update(i, e),
        None => es.push(e),
    }
}

/// The entries a plan registers, in order.
pub open spec fn entries_of(p: PlanView) -> Seq<EntryView> {
    match p {
        PlanView::SingleIndex(e, io) => seq![EntryView::Single(e, io)],
        PlanView::MultiIndex(ps, rs) => ps.map_values(|x: (ExprRef, IndexOption)| EntryView::Single(Some(x.0), x.1))
            + rs.map_values(|x: (IndexRef, RangeQueryView)| EntryView::Range(x.1.exprs, x.0, x.1.from, x.1.to)),
        PlanView::SingleIndexRange(ix, rq) => seq![EntryView::Range(rq.exprs, ix, rq.from, rq.to)],
        PlanView::TableIterator(_) => Seq::empty(),
    }
}

/// The iterables a plan hands over for table `t`.
pub open spec fn ingested_of(t: Seq<char>, p: PlanView) -> Seq<IterableView> {
    match p {
        PlanView::TableIterator(_) => seq![IterableView::Table(t)],
        _ => Seq::new(entries_of(p).len(), |i: int| IterableView::Index(t, i as IteratorRef)),
    }
}

/// Whether a plan can yield a row more than once.
pub open spec fn plan_requires_distinct(p: PlanView) -> bool {
    p is MultiIndex
}

pub open spec fn fallback_of(p: PlanView) -> Seq<Seq<char>> {
    match p {
        PlanView::TableIterator(Some(f)) => seq![f.text()],
        _ => Seq::empty(),
    }
}

pub open spec fn orders_of(p: PlanView) -> Seq<IteratorRef> {
    match p {
        PlanView::SingleIndex(None, _) => seq![0],
        _ => Seq::empty(),
    }
}

/// A full scan with similarity work takes two stages; anything else one.
pub open spec fn workflow_of(knn: bool, p: PlanView) -> Seq<Stage> {
    if knn && p is TableIterator {
        seq![Stage::CollectKnn, Stage::BuildKnn]
    } else {
        seq![Stage::Iterate]
    }
}

/// The results of every executor with similarity work, in executor order.
pub open spec fn knn_results(es: Seq<ExecutorView>) -> KnnResultsView
    decreases es.len(),
{
    if es.len() == 0 {
        Seq::empty()
    } else if es.last().knn.len() > 0 {
        knn_results(es.drop_last()).push((es.last().table, es.last().candidates))
    } else {
        knn_results(es.drop_last())
    }
}

/// The stage at position `pos` of the workflow.
pub open spec fn stage_spec(v: PlannerView, pos: int) -> Option<IterationStageView> {
    if 0 <= pos < v.workflow.len() {
        match v.workflow[pos] {
            Stage::Iterate => Some(IterationStageView::Iterate(None)),
            Stage::CollectKnn => Some(IterationStageView::CollectKnn),
            Stage::BuildKnn => Some(IterationStageView::Iterate(Some(knn_results(v.executors)))),
        }
    } else {
        None
    }
}

/// What planning one table is given: its name and the tree builder's
/// report for it.
pub struct TableInput {
    pub table: Seq<char>,
    pub root: Option<Node>,
    pub order: Option<IndexOption>,
    pub knn: Seq<ExprRef>,
    pub k: u32,
}

pub open spec fn input_of(t: Seq<char>, tree: TreeOutput) -> TableInput {
    TableInput { table: t, root: tree.root, order: tree.order, knn: tree.knn_expressions@, k: tree.knn_k }
}

/// The planner after planning one more table.
pub open spec fn planned(v: PlannerView, t: TableInput) -> PlannerView {
    let p = build_spec(t.root, v.with, t.order);
    PlannerView {
        with: v.with,
        executors: put_executor(
            v.executors,
            ExecutorView { table: t.table, entries: entries_of(p), knn: t.knn, k: t.k, candidates: Seq::empty() },
        ),
        requires_distinct: v.requires_distinct || plan_requires_distinct(p),
        fallbacks: v.fallbacks + fallback_of(p),
        orders: v.orders + orders_of(p),
        workflow: workflow_of(t.knn.len() > 0, p),
    }
}

/// The planner after planning each table of `ts` in turn.
pub open spec fn planned_all(v: PlannerView, ts: Seq<TableInput>) -> PlannerView
    decreases ts.len(),
{
    if ts.len() == 0 {
        v
    } else {
        planned(planned_all(v, ts.drop_last()), ts.last())
    }
}

/// Plans a query one table at a time.
pub struct QueryPlanner {
    with: Option<With>,
    executors: Vec<QueryExecutor>,
    requires_distinct: bool,
    fallbacks: Vec<String>,
    iteration_workflow: Vec<Stage>,
    iteration_index: AtomicU64,
    orders: Vec<IteratorRef>,
}

impl View for QueryPlanner {
    type V = PlannerView;

    closed spec fn view(&self) -> PlannerView {
        PlannerView {
            with: with_view(&self.with),
            executors: self.executors@.map_values(|e: QueryExecutor| e@),
            requires_distinct: self.requires_distinct,
            fallbacks: self.fallbacks@.map_values(|s: String| s@),
            workflow: self.iteration_workflow@,
            orders: self.orders@,
        }
    }
}

impl QueryPlanner {
    pub closed spec fn wf(&self) -> bool {
        forall|i: int| 0 <= i < self.executors@.len() ==> #[trigger] self.executors@[i].wf()
    }

    pub fn new(with: Option<With>) -> (r: QueryPlanner)
        ensures
            r.wf(),
            r@ == (PlannerView {
                with: with_view(&with),
                executors: Seq::empty(),
                requires_distinct: false,
                fallbacks: Seq::empty(),
                workflow: Seq::empty(),
                orders: Seq::empty(),
            }),
    {
        let r = QueryPlanner {
            with,
            executors: Vec::new(),
            requires_distinct: false,
            fallbacks: Vec::new(),
            iteration_workflow: Vec::new(),
            iteration_index: AtomicU64::new(0),
            orders: Vec::new(),
        };
        assert(r@.executors =~= Seq::<ExecutorView>::empty());
        assert(r@.fallbacks =~= Seq::<Seq<char>>::empty());
        r
    }

    fn find(&self, tb: &String) -> (r: Option<usize>)
        ensures
            match r {
                Some(i) => find_executor(self@.executors, tb@) == Some(i as int) && i < self@.executors.len(),
                None => find_executor(self@.executors, tb@) is None,
            },
    {
        let ghost es = self@.executors;
        let mut i: usize = self.executors.len();
        assert(es.subrange(0, es.len() as int) =~= es);
        while i > 0
            invariant
                i <= es.len(),
                es == self@.executors,
                find_executor(es, tb@) == find_executor(es.subrange(0, i as int), tb@),
            decreases i,
        {
            let ghost sub = es.subrange(0, i as int);
            assert(sub.last() == es[i - 1]);
            assert(sub.drop_last() =~= es.subrange(0, i - 1));
            assert(find_executor(sub, tb@) == if sub.last().table == tb@ {
                Some(i - 1)
            } else {
                find_executor(sub.drop_last(), tb@)
            });
            assert(self.executors@[i - 1]@ == es[i - 1]);
            if self.executors[i - 1].table().eq(tb) {
                return Some(i - 1);
            }
            i = i - 1;
        }
        assert(es.subrange(0, 0) =~= Seq::<ExecutorView>::empty());
        None
    }

    fn add(&mut self, tb: String, irf: Option<IteratorRef>, exe: QueryExecutor, it: &mut IterableSink)
        requires
            old(self).wf(),
            exe.wf(),
            exe@.table == tb@,
        ensures
            final(self).wf(),
            final(self)@ == (PlannerView { executors: put_executor(old(self)@.executors, exe@), ..old(self)@ }),
            final(it)@ == match irf {
                Some(r) => old(it)@.push(IterableView::Index(tb@, r)),
                None => old(it)@,
            },
    {
        let ghost ev = exe@;
        match self.find(&tb) {
            Some(i) => {
                self.executors.set(i, exe);
                assert(self@.executors =~= old(self)@.executors.update(i as int, ev));
            },
            None => {
                self.executors.push(exe);
                assert(self@.executors =~= old(self)@.executors.push(ev));
            },
        }
        if let Some(irf) = irf {
            it.ingest(Iterable::Index(tb, irf));
        }
    }

    /// Plans table `t` from what the tree builder reported for it: builds its
    /// executor, chooses the plan, registers the plan's entries, hands the
    /// iterables to `it`, and fixes the query's iteration workflow.
    pub fn add_iterables(&mut self, t: String, tree: TreeOutput, it: &mut IterableSink)
        requires
            old(self).wf(),
        ensures
            final(self).wf(),
            ({
                let p = build_spec(tree.root, old(self)@.with, tree.order);
                let exe = ExecutorView { table: t@, entries: entries_of(p), knn: tree.knn_expressions@, k: tree.knn_k, candidates: Seq::empty() };
                &&& final(self)@.with == old(self)@.with
                &&& final(self)@.executors == put_executor(old(self)@.executors, exe)
                &&& final(self)@.requires_distinct == (old(self)@.requires_distinct || plan_requires_distinct(p))
                &&& final(self)@.fallbacks == old(self)@.fallbacks + fallback_of(p)
                &&& final(self)@.orders == old(self)@.orders + orders_of(p)
                &&& final(self)@.workflow == workflow_of(tree.knn_expressions@.len() > 0, p)
                &&& final(it)@ == old(it)@ + ingested_of(t@, p)
            }),
            final(self)@ == planned(old(self)@, input_of(t@, tree)),
    {
        let ghost tin = input_of(t@, tree);
        let ghost p = build_spec(tree.root, self@.with, tree.order);
        let ghost it0 = it@;
        let is_knn = tree.knn_expressions.len() > 0;
        let mut is_table_iterator = false;
        let mut exe = QueryExecutor::new(t.clone(), tree.knn_expressions, tree.knn_k);
        let plan = build(&tree.root, &self.with, tree.order);
        assert(plan@ == p);
        match plan {
            Plan::SingleIndex(exp, io) => {
                let is_order = exp.is_none();
                let ir = exe.add_iterator(IteratorEntry::Single(exp, io));
                assert(exe@.entries =~= entries_of(p));
                self.add(t.clone(), Some(ir), exe, it);
                if is_order {
                    self.orders.push(ir);
                }
                assert(it@ =~= it0 + ingested_of(t@, p));
                assert(self@.orders =~= old(self)@.orders + orders_of(p));
                assert(self@.fallbacks =~= old(self)@.fallbacks + fallback_of(p));
            },
            Plan::MultiIndex(non_range_indexes, ranges_indexes) => {
                let ghost ps = non_range_indexes@;
                let ghost rs = p->MultiIndex_1;
                let mut i: usize = 0;
                while i < non_range_indexes.len()
                    invariant
                        i <= ps.len(),
                        non_range_indexes@ == ps,
                        exe.wf(),
                        exe@.table == t@,
                        exe@.knn == tree.knn_expressions@,
                        exe@.k == tree.knn_k,
                        exe@.candidates == Seq::<KnnCandidate>::empty(),
                        exe@.entries == ps.subrange(0, i as int).map_values(|x: (ExprRef, IndexOption)| EntryView::Single(Some(x.0), x.1)),
                        it@ == it0 + Seq::new(i as nat, |j: int| IterableView::Index(t@, j as IteratorRef)),
                    decreases ps.len() - i,
                {
                    let (exp, io) = non_range_indexes[i];
                    let ir = exe.add_iterator(IteratorEntry::Single(Some(exp), io));
                    it.ingest(Iterable::Index(t.clone(), ir));
                    i = i + 1;
                    assert(exe@.entries =~= ps.subrange(0, i as int).map_values(|x: (ExprRef, IndexOption)| EntryView::Single(Some(x.0), x.1)));
                    assert(it@ =~= it0 + Seq::new(i as nat, |j: int| IterableView::Index(t@, j as IteratorRef)));
                }
                let ghost base = exe@.entries;
                assert(ps.subrange(0, ps.len() as int) =~= ps);
                let n = non_range_indexes.len();
                let mut k: usize = 0;
                while k < ranges_indexes.len()
                    invariant
                        k <= rs.len(),
                        n == ps.len(),
                        rs == crate::plan::ranges_view(ranges_indexes@),
                        exe.wf(),
                        exe@.table == t@,
                        exe@.knn == tree.knn_expressions@,
                        exe@.k == tree.knn_k,
                        exe@.candidates == Seq::<KnnCandidate>::empty(),
                        base == ps.map_values(|x: (ExprRef, IndexOption)| EntryView::Single(Some(x.0), x.1)),
                        exe@.entries == base + rs.subrange(0, k as int).map_values(|x: (IndexRef, RangeQueryView)| EntryView::Range(x.1.exprs, x.0, x.1.from, x.1.to)),
                        it@ == it0 + Seq::new((n + k) as nat, |j: int| IterableView::Index(t@, j as IteratorRef)),
                    decreases rs.len() - k,
                {
                    let ixr = ranges_indexes[k].0;
                    let from = ranges_indexes[k].1.from;
                    let to = ranges_indexes[k].1.to;
                    let exprs = copy_exprs(&ranges_indexes[k].1.exprs);
                    let ir = exe.add_iterator(IteratorEntry::Range(exprs, ixr, from, to));
                    it.ingest(Iterable::Index(t.clone(), ir));
                    k = k + 1;
                    assert(exe@.entries =~= base + rs.subrange(0, k as int).map_values(|x: (IndexRef, RangeQueryView)| EntryView::Range(x.1.exprs, x.0, x.1.from, x.1.to)));
                    assert(it@ =~= it0 + Seq::new((n + k) as nat, |j: int| IterableView::Index(t@, j as IteratorRef)));
                }
                assert(rs.subrange(0, rs.len() as int) =~= rs);
                assert(exe@.entries =~= entries_of(p));
                self.requires_distinct = true;
                self.add(t.clone(), None, exe, it);
                assert(it@ =~= it0 + ingested_of(t@, p));
                assert(self@.orders =~= old(self)@.orders + orders_of(p));
                assert(self@.fallbacks =~= old(self)@.fallbacks + fallback_of(p));
            },
            Plan::SingleIndexRange(ixn, rq) => {
                let ir = exe.add_iterator(IteratorEntry::Range(rq.exprs, ixn, rq.from, rq.to));
                assert(exe@.entries =~= entries_of(p));
                self.add(t.clone(), Some(ir), exe, it);
                assert(it@ =~= it0 + ingested_of(t@, p));
                assert(self@.orders =~= old(self)@.orders + orders_of(p));
                assert(self@.fallbacks =~= old(self)@.fallbacks + fallback_of(p));
            },
            Plan::TableIterator(fallback) => {
                if let Some(fallback) = fallback {
                    self.fallbacks.push(fallback.message());
                }
                assert(self@.fallbacks =~= old(self)@.fallbacks + fallback_of(p));
                assert(exe@.entries =~= entries_of(p));
                self.add(t.clone(), None, exe, it);
                it.ingest(Iterable::Table(t));
                is_table_iterator = true;
                assert(it@ =~= it0 + ingested_of(t@, p));
                assert(self@.orders =~= old(self)@.orders + orders_of(p));
            },
        }
        if is_knn && is_table_iterator {
            self.iteration_workflow = vec![Stage::CollectKnn, Stage::BuildKnn];
        } else {
            self.iteration_workflow = vec![Stage::Iterate];
        }
        assert(self@.workflow =~= workflow_of(is_knn, p));
        assert(self@ == planned(old(self)@, tin));
    }

    pub fn has_executors(&self) -> (r: bool)
        ensures
            r == (self@.executors.len() > 0),
    {
        self.executors.len() > 0
    }

    pub fn get_query_executor(&self, tb: &String) -> (r: Option<&QueryExecutor>)
        ensures
            match r {
                Some(e) => find_executor(self@.executors, tb@) is Some
                    && e@ == self@.executors[find_executor(self@.executors, tb@).unwrap()],
                None => find_executor(self@.executors, tb@) is None,
            },
    {
        match self.find(tb) {
            Some(i) => Some(&self.executors[i]),
            None => None,
        }
    }

    /// Scores a candidate into the similarity ranking of table `tb`; false
    /// when the table has no executor.
    pub fn collect_knn(&mut self, tb: &String, c: KnnCandidate) -> (r: bool)
        requires
            old(self).wf(),
        ensures
            final(self).wf(),
            r == (find_executor(old(self)@.executors, tb@) is Some),
            r ==> ({
                let i = find_executor(old(self)@.executors, tb@).unwrap();
                let e = old(self)@.executors[i];
                final(self)@ == (PlannerView {
                    executors: old(self)@.executors.update(i, ExecutorView { candidates: with_candidate(e.candidates, c, e.k), ..e }),
                    ..old(self)@
                })
            }),
            !r ==> final(self)@ == old(self)@,
    {
        match self.find(tb) {
            Some(i) => {
                let mut exe = self.executors.remove(i);
                assert(exe.wf());
                exe.collect_knn(c);
                let ghost ev = exe@;
                self.executors.insert(i, exe);
                assert(self@.executors =~= old(self)@.executors.update(i as int, ev));
                assert forall|j: int| 0 <= j < self.executors@.len() implies #[trigger] self.executors@[j].wf() by {
                    if j != i {
                        assert(self.executors@[j] == old(self).executors@[j]);
                    }
                }
                true
            },
            None => false,
        }
    }

    pub fn requires_distinct(&self) -> (r: bool)
        ensures
            r == self@.requires_distinct,
    {
        self.requires_distinct
    }

    pub fn fallbacks(&self) -> (r: &Vec<String>)
        ensures
            r@.map_values(|s: String| s@) == self@.fallbacks,
    {
        &self.fallbacks
    }

    pub fn is_order(&self, irf: &IteratorRef) -> (r: bool)
        ensures
            r == self@.orders.contains(*irf),
    {
        let mut i: usize = 0;
        while i < self.orders.len()
            invariant
                i <= self.orders@.len(),
                forall|j: int| 0 <= j < i ==> self.orders@[j] != *irf,
            decreases self.orders@.len() - i,
        {
            if self.orders[i] == *irf {
                assert(self.orders@[i as int] == *irf);
                return true;
            }
            i = i + 1;
        }
        false
    }

    fn build_bruteforce_knn_results(&self) -> (r: KnnBruteForceResults)
        ensures
            results_view(r) == knn_results(self@.executors),
    {
        let ghost es = self@.executors;
        let mut results: KnnBruteForceResults = Vec::new();
        let mut i: usize = 0;
        while i < self.executors.len()
            invariant
                i <= es.len(),
                es == self@.executors,
                results_view(results) == knn_results(es.subrange(0, i as int)),
            decreases es.len() - i,
        {
            let exe = &self.executors[i];
            assert(es.subrange(0, i + 1).drop_last() =~= es.subrange(0, i as int));
            assert(es[i as int] == exe@);
            if exe.has_knn() {
                let ghost before = results;
                results.push((exe.table().clone(), exe.build_bruteforce_knn_result()));
                assert(results_view(results) =~= results_view(before).push((exe@.table, exe@.candidates)));
            }
            i = i + 1;
        }
        assert(es.subrange(0, es.len() as int) =~= es);
        results
    }

    /// The stage at position `pos` of the workflow; a `BuildKnn` step is
    /// handed out as `Iterate` with the brute-force results of every table
    /// with similarity work.
    pub fn stage_at(&self, pos: usize) -> (r: Option<IterationStage>)
        ensures
            match r {
                Some(s) => stage_spec(self@, pos as int) == Some(s@),
                None => stage_spec(self@, pos as int) is None,
            },
    {
        if pos >= self.iteration_workflow.len() {
            return None;
        }
        match self.iteration_workflow[pos] {
            Stage::Iterate => Some(IterationStage::Iterate(None)),
            Stage::CollectKnn => Some(IterationStage::CollectKnn),
            Stage::BuildKnn => Some(IterationStage::Iterate(Some(self.build_bruteforce_knn_results()))),
        }
    }

    /// Advances the shared stage cursor by one and returns the stage it
    /// stood on; concurrent callers each get a position of their own.
    pub fn next_iteration_stage(&self) -> (r: Option<IterationStage>)
        ensures
            match r {
                Some(s) => exists|pos: int| 0 <= pos && stage_spec(self@, pos) == Some(s@),
                None => exists|pos: int| 0 <= pos && stage_spec(self@, pos) is None,
            },
    {
        let pos = self.iteration_index.fetch_add(1, Ordering::Relaxed);
        let n = self.iteration_workflow.len();
        if pos > usize::MAX as u64 {
            assert(self@.workflow.len() == n);
            assert(stage_spec(self@, pos as int) is None);
            return None;
        }
        self.stage_at(pos as usize)
    }
}

fn copy_exprs(v: &Vec<ExprRef>) -> (r: Vec<ExprRef>)
    ensures
        r@ == v@,
{
    let mut out: Vec<ExprRef> = Vec::new();
    let mut i: usize = 0;
    while i < v.len()
        invariant
            i <= v@.len(),
            out@ == v@.subrange(0, i as int),
        decreases v@.len() - i,
    {
        out.push(v[i]);
        i = i + 1;
        assert(out@ =~= v@.subrange(0, i as int));
    }
    assert(out@ =~= v@);
    out
}

/// Over any sequence of tables planned from a fresh planner, duplicates
/// must be removed exactly when one table got a multi-index plan.
pub proof fn lemma_requires_distinct(v: PlannerView, ts: Seq<TableInput>)
    requires
        !v.requires_distinct,
    ensures
        planned_all(v, ts).requires_distinct <==> exists|i: int|
            0 <= i < ts.len() && #[trigger] build_spec(ts[i].root, v.with, ts[i].order) is MultiIndex,
        planned_all(v, ts).with == v.with,
    decreases ts.len(),
{
    if ts.len() > 0 {
        let init = ts.drop_last();
        lemma_requires_distinct(v, init);
        if planned_all(v, init).requires_distinct {
            let i = choose|i: int| 0 <= i < init.len() && #[trigger] build_spec(init[i].root, v.with, init[i].order) is MultiIndex;
            assert(ts[i] == init[i]);
        }
        if exists|i: int| 0 <= i < ts.len() && #[trigger] build_spec(ts[i].root, v.with, ts[i].order) is MultiIndex {
            let i = choose|i: int| 0 <= i < ts.len() && #[trigger] build_spec(ts[i].root, v.with, ts[i].order) is MultiIndex;
            if i < ts.len() - 1 {
                assert(init[i] == ts[i]);
            }
        }
    }
}

proof fn lemma_knn_results_from(es: Seq<ExecutorView>, j: int)
    requires
        0 <= j < knn_results(es).len(),
    ensures
        exists|i: int| 0 <= i < es.len() && #[trigger] es[i].knn.len() > 0 && knn_results(es)[j] == (es[i].table, es[i].candidates),
    decreases es.len(),
{
    let init = es.drop_last();
    if es.last().knn.len() > 0 && j == knn_results(es).len() - 1 {
        assert(es[es.len() - 1].knn.len() > 0);
    } else {
        lemma_knn_results_from(init, j);
        let i = choose|i: int| 0 <= i < init.len() && #[trigger] init[i].knn.len() > 0 && knn_results(init)[j] == (init[i].table, init[i].candidates);
        assert(es[i] == init[i]);
    }
}

/// The results hold an entry for every executor with similarity work,
/// and every entry is one.
pub proof fn lemma_knn_results_entries(es: Seq<ExecutorView>)
    ensures
        forall|i: int|
            0 <= i < es.len() && #[trigger] es[i].knn.len() > 0 ==> exists|j: int|
                0 <= j < knn_results(es).len() && #[trigger] knn_results(es)[j] == (es[i].table, es[i].candidates),
        forall|j: int|
            0 <= j < knn_results(es).len() ==> exists|i: int|
                0 <= i < es.len() && #[trigger] es[i].knn.len() > 0 && #[trigger] knn_results(es)[j] == (
                    es[i].table,
                    es[i].candidates,
                ),
{
    assert forall|i: int| 0 <= i < es.len() && #[trigger] es[i].knn.len() > 0 implies exists|j: int|
        0 <= j < knn_results(es).len() && #[trigger] knn_results(es)[j] == (es[i].table, es[i].candidates) by {
        lemma_knn_results_cover(es, i);
    }
    assert forall|j: int| 0 <= j < knn_results(es).len() implies exists|i: int|
        0 <= i < es.len() && #[trigger] es[i].knn.len() > 0 && #[trigger] knn_results(es)[j] == (es[i].table, es[i].candidates) by {
        lemma_knn_results_from(es, j);
    }
}

proof fn lemma_knn_results_cover(es: Seq<ExecutorView>, i: int)
    requires
        0 <= i < es.len(),
        es[i].knn.len() > 0,
    ensures
        exists|j: int| 0 <= j < knn_results(es).len() && #[trigger] knn_results(es)[j] == (es[i].table, es[i].candidates),
    decreases es.len(),
{
    if i == es.len() - 1 {
        let r = knn_results(es);
        assert(r[r.len() - 1] == (es[i].table, es[i].candidates));
    } else {
        let init = es.drop_last();
        assert(init[i] == es[i]);
        lemma_knn_results_cover(init, i);
        let j = choose|j: int| 0 <= j < knn_results(init).len() && #[trigger] knn_results(init)[j] == (init[i].table, init[i].candidates);
        assert(knn_results(es)[j] == knn_results(init)[j]);
    }
}

/// A query whose table has similarity work and was planned as a full scan
/// runs `CollectKnn` and then `Iterate` with the results of every table
/// with similarity work (see `lemma_knn_results_entries`), then stops; any
/// other query runs one `Iterate` without results.
pub proof fn lemma_staged_knn(v: PlannerView, knn: bool, p: PlanView)
    requires
        v.workflow == workflow_of(knn, p),
    ensures
        knn && p is TableIterator ==> {
            &&& stage_spec(v, 0) == Some(IterationStageView::CollectKnn)
            &&& stage_spec(v, 1) == Some(IterationStageView::Iterate(Some(knn_results(v.executors))))
            &&& stage_spec(v, 2) is None
        },
        !(knn && p is TableIterator) ==> {
            &&& stage_spec(v, 0) == Some(IterationStageView::Iterate(None))
            &&& stage_spec(v, 1) is None
        },
{
    if knn && p is TableIterator {
        assert(v.workflow[0] == Stage::CollectKnn && v.workflow[1] == Stage::BuildKnn && v.workflow.len() == 2);
    } else {
        assert(v.workflow[0] == Stage::Iterate && v.workflow.len() == 1);
    }
}

} // verus!
