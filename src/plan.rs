//! The plan builder: a pure choice of one execution strategy for a table,
//! from its analysed condition, the index hints and the order index.
use vstd::prelude::*;

verus! {

/// Identifies an expression of the condition.
pub type ExprRef = u32;

/// Identifies an index of the table.
pub type IndexRef = u32;

#[derive(Clone, Copy, Debug, PartialEq, Eq, Structural)]
pub enum Operator {
    Equal,
    LessThan,
    LessThanOrEqual,
    MoreThan,
    MoreThanOrEqual,
    /// An operator that no index can serve.
    Other,
}

/// An index together with the operator and value it would be used with.
#[derive(Clone, Copy, Debug, PartialEq, Eq, Structural)]
pub struct IndexOption {
    pub ix: IndexRef,
    pub op: Operator,
    pub value: i64,
}

/// A filter expression and the index usage found for it, if any.
#[derive(Clone, Copy, Debug, PartialEq, Eq, Structural)]
pub struct Leaf {
    pub expr: ExprRef,
    pub io: Option<IndexOption>,
}

/// The analysed condition tree.
pub enum Node {
    Expression(Leaf),
    And(Box<Node>, Box<Node>),
    Or(Box<Node>, Box<Node>),
}

/// Explicit index hints of a query.
pub enum With {
    NoIndex,
    Index(Vec<IndexRef>),
}

/// One edge of a range; `value == None` leaves that side open.
#[derive(Clone, Copy, Debug, PartialEq, Eq, Structural)]
pub struct RangeValue {
    pub value: Option<i64>,
    pub inclusive: bool,
}

pub struct RangeQuery {
    pub exprs: Vec<ExprRef>,
    pub from: RangeValue,
    pub to: RangeValue,
}

pub struct RangeQueryView {
    pub exprs: Seq<ExprRef>,
    pub from: RangeValue,
    pub to: RangeValue,
}

impl View for RangeQuery {
    type V = RangeQueryView;

    open spec fn view(&self) -> RangeQueryView {
        RangeQueryView { exprs: self.exprs@, from: self.from, to: self.to }
    }
}

/// Why a table is scanned in full.
#[derive(Clone, Copy, Debug, PartialEq, Eq, Structural)]
pub enum Fallback {
    /// The hints ruled out every index.
    WithNoIndex,
    /// A condition exists but no index serves it.
    NoIndexFound,
}

impl Fallback {
    pub open spec fn text(&self) -> Seq<char> {
        match self {
            Fallback::WithNoIndex => "WITH NOINDEX"@,
            Fallback::NoIndexFound => "NO INDEX FOUND"@,
        }
    }

    /// The diagnostic line for this fallback.
    pub fn message(&self) -> (r: String)
        ensures
            r@ == self.text(),
    {
        match self {
            Fallback::WithNoIndex => "WITH NOINDEX".to_owned(),
            Fallback::NoIndexFound => "NO INDEX FOUND".to_owned(),
        }
    }
}

/// The strategy chosen for one table.
pub enum Plan {
    /// One index serves one expression, or (`None`) the order alone.
    SingleIndex(Option<ExprRef>, IndexOption),
    /// A union of point lookups and range scans.
    MultiIndex(Vec<(ExprRef, IndexOption)>, Vec<(IndexRef, RangeQuery)>),
    /// One index scanned over a range.
    SingleIndexRange(IndexRef, RangeQuery),
    /// A full scan.
    TableIterator(Option<Fallback>),
}

pub enum PlanView {
    SingleIndex(Option<ExprRef>, IndexOption),
    MultiIndex(Seq<(ExprRef, IndexOption)>, Seq<(IndexRef, RangeQueryView)>),
    SingleIndexRange(IndexRef, RangeQueryView),
    TableIterator(Option<Fallback>),
}

pub open spec fn ranges_view(s: Seq<(IndexRef, RangeQuery)>) -> Seq<(IndexRef, RangeQueryView)> {
    s.map_values(|p: (IndexRef, RangeQuery)| (p.0, p.1@))
}

impl View for Plan {
    type V = PlanView;

    open spec fn view(&self) -> PlanView {
        match self {
            Plan::SingleIndex(e, io) => PlanView::SingleIndex(*e, *io),
            Plan::MultiIndex(p, r) => PlanView::MultiIndex(p@, ranges_view(r@)),
            Plan::SingleIndexRange(ix, rq) => PlanView::SingleIndexRange(*ix, rq@),
            Plan::TableIterator(f) => PlanView::TableIterator(*f),
        }
    }
}

/// The hints as a spec value: `None` allows every index, `Some(s)` the
/// indexes in `s`, and `NoIndex` none.
pub enum WithView {
    NoIndex,
    Index(Seq<IndexRef>),
}

impl View for With {
    type V = WithView;

    open spec fn view(&self) -> WithView {
        match self {
            With::NoIndex => WithView::NoIndex,
            With::Index(v) => WithView::Index(v@),
        }
    }
}

pub open spec fn allowed(with: Option<WithView>, ix: IndexRef) -> bool {
    match with {
        None => true,
        Some(WithView::NoIndex) => false,
        Some(WithView::Index(s)) => s.contains(ix),
    }
}

pub open spec fn is_range_op(op: Operator) -> bool {
    op == Operator::LessThan || op == Operator::LessThanOrEqual || op == Operator::MoreThan || op
        == Operator::MoreThanOrEqual
}

/// The expressions of the tree, left to right.
pub open spec fn leaves(n: Node) -> Seq<Leaf>
    decreases n,
{
    match n {
        Node::Expression(l) => seq![l],
        Node::And(a, b) => leaves(*a) + leaves(*b),
        Node::Or(a, b) => leaves(*a) + leaves(*b),
    }
}

/// Whether every boolean operator of the tree is an AND.
pub open spec fn all_and(n: Node) -> bool
    decreases n,
{
    match n {
        Node::Expression(_) => true,
        Node::And(a, b) => all_and(*a) && all_and(*b),
        Node::Or(_, _) => false,
    }
}

pub open spec fn is_point(l: Leaf, with: Option<WithView>) -> bool {
    l.io is Some && l.io.unwrap().op == Operator::Equal && allowed(with, l.io.unwrap().ix)
}

pub open spec fn is_range(l: Leaf, with: Option<WithView>) -> bool {
    l.io is Some && is_range_op(l.io.unwrap().op) && allowed(with, l.io.unwrap().ix)
}

/// The point lookups among `ls`, in order.
pub open spec fn points(ls: Seq<Leaf>, with: Option<WithView>) -> Seq<(ExprRef, IndexOption)>
    decreases ls.len(),
{
    if ls.len() == 0 {
        Seq::empty()
    } else if is_point(ls.last(), with) {
        points(ls.drop_last(), with).push((ls.last().expr, ls.last().io.unwrap()))
    } else {
        points(ls.drop_last(), with)
    }
}

/// The range lookups among `ls`, in order.
pub open spec fn ranges(ls: Seq<Leaf>, with: Option<WithView>) -> Seq<(ExprRef, IndexOption)>
    decreases ls.len(),
{
    if ls.len() == 0 {
        Seq::empty()
    } else if is_range(ls.last(), with) {
        ranges(ls.drop_last(), with).push((ls.last().expr, ls.last().io.unwrap()))
    } else {
        ranges(ls.drop_last(), with)
    }
}

pub open spec fn unbounded() -> RangeValue {
    RangeValue { value: None, inclusive: false }
}

/// The range of one inequality: `>` and `>=` bound it from below,
/// exclusive and inclusive; `<` and `<=` from above.
pub open spec fn range_of(e: ExprRef, io: IndexOption) -> RangeQueryView {
    let v = RangeValue { value: Some(io.value), inclusive: io.op == Operator::MoreThanOrEqual || io.op == Operator::LessThanOrEqual };
    if io.op == Operator::MoreThan || io.op == Operator::MoreThanOrEqual {
        RangeQueryView { exprs: seq![e], from: v, to: unbounded() }
    } else {
        RangeQueryView { exprs: seq![e], from: unbounded(), to: v }
    }
}

/// The tighter of two lower edges.
pub open spec fn tighter_from(a: RangeValue, b: RangeValue) -> RangeValue {
    match (a.value, b.value) {
        (None, _) => b,
        (_, None) => a,
        (Some(x), Some(y)) => if x > y {
            a
        } else if y > x {
            b
        } else {
            RangeValue { value: Some(x), inclusive: a.inclusive && b.inclusive }
        },
    }
}

/// The tighter of two upper edges.
pub open spec fn tighter_to(a: RangeValue, b: RangeValue) -> RangeValue {
    match (a.value, b.value) {
        (None, _) => b,
        (_, None) => a,
        (Some(x), Some(y)) => if x < y {
            a
        } else if y < x {
            b
        } else {
            RangeValue { value: Some(x), inclusive: a.inclusive && b.inclusive }
        },
    }
}

/// The intersection of the ranges in `rs` that use index `ix`.
pub open spec fn merged(rs: Seq<(ExprRef, IndexOption)>, ix: IndexRef) -> RangeQueryView
    decreases rs.len(),
{
    if rs.len() == 0 {
        RangeQueryView { exprs: Seq::empty(), from: unbounded(), to: unbounded() }
    } else {
        let m = merged(rs.drop_last(), ix);
        let (e, io) = rs.last();
        if io.ix == ix {
            let r = range_of(e, io);
            RangeQueryView { exprs: m.exprs.push(e), from: tighter_from(m.from, r.from), to: tighter_to(m.to, r.to) }
        } else {
            m
        }
    }
}

/// Each range lookup on its own, for a union.
pub open spec fn separate(rs: Seq<(ExprRef, IndexOption)>) -> Seq<(IndexRef, RangeQueryView)> {
    rs.map_values(|p: (ExprRef, IndexOption)| (p.1.ix, range_of(p.0, p.1)))
}

/// The first point lookup whose index also gives the order, if any.
pub open spec fn first_on_index(ps: Seq<(ExprRef, IndexOption)>, ix: IndexRef) -> Option<int>
    decreases ps.len(),
{
    if ps.len() == 0 {
        None
    } else {
        match first_on_index(ps.drop_last(), ix) {
            Some(i) => Some(i),
            None => if ps.last().1.ix == ix {
                Some(ps.len() - 1)
            } else {
                None
            },
        }
    }
}

pub open spec fn order_plan(with: Option<WithView>, order: Option<IndexOption>, fallback: Option<Fallback>) -> PlanView {
    match order {
        Some(o) => if allowed(with, o.ix) {
            PlanView::SingleIndex(None, o)
        } else {
            PlanView::TableIterator(fallback)
        },
        None => PlanView::TableIterator(fallback),
    }
}

/// The plan for a table.
/// - `WITH NOINDEX` scans the table.
/// - With no usable index expression, the order index alone serves, else
///   the table is scanned, with a reason when there was a condition.
/// - When every operator is an AND: the first point lookup on the order
///   index, else the first point lookup, else the first range index with
///   all its ranges intersected.
/// - Otherwise, when every expression has a usable index: the union of all
///   point and range lookups.
/// - Otherwise the order index alone serves, else the table is scanned,
///   with its reason.
pub open spec fn build_spec(root: Option<Node>, with: Option<WithView>, order: Option<IndexOption>) -> PlanView {
    if with == Some(WithView::NoIndex) {
        PlanView::TableIterator(Some(Fallback::WithNoIndex))
    } else {
        match root {
            None => order_plan(with, order, None),
            Some(n) => {
                let ls = leaves(n);
                let ps = points(ls, with);
                let rs = ranges(ls, with);
                if ps.len() == 0 && rs.len() == 0 {
                    order_plan(with, order, Some(Fallback::NoIndexFound))
                } else if all_and(n) {
                    let on_order = match order {
                        Some(o) => first_on_index(ps, o.ix),
                        None => None,
                    };
                    if on_order is Some {
                        let i = on_order.unwrap();
                        PlanView::SingleIndex(Some(ps[i].0), ps[i].1)
                    } else if ps.len() > 0 {
                        PlanView::SingleIndex(Some(ps[0].0), ps[0].1)
                    } else {
                        PlanView::SingleIndexRange(rs[0].1.ix, merged(rs, rs[0].1.ix))
                    }
                } else if ps.len() + rs.len() == ls.len() {
                    PlanView::MultiIndex(ps, separate(rs))
                } else {
                    order_plan(with, order, Some(Fallback::NoIndexFound))
                }
            },
        }
    }
}

pub open spec fn with_view(with: &Option<With>) -> Option<WithView> {
    match with {
        Some(w) => Some(w@),
        None => None,
    }
}

fn collect_leaves(n: &Node, out: &mut Vec<Leaf>)
    ensures
        final(out)@ == old(out)@ + leaves(*n),
    decreases n,
{
    match n {
        Node::Expression(l) => {
            out.push(*l);
            assert(final(out)@ =~= old(out)@ + leaves(*n));
        },
        Node::And(a, b) => {
            collect_leaves(a, out);
            collect_leaves(b, out);
            assert(final(out)@ =~= old(out)@ + leaves(*n));
        },
        Node::Or(a, b) => {
            collect_leaves(a, out);
            collect_leaves(b, out);
            assert(final(out)@ =~= old(out)@ + leaves(*n));
        },
    }
}

fn is_all_and(n: &Node) -> (r: bool)
    ensures
        r == all_and(*n),
    decreases n,
{
    match n {
        Node::Expression(_) => true,
        Node::And(a, b) => is_all_and(a) && is_all_and(b),
        Node::Or(_, _) => false,
    }
}

fn is_allowed(with: &Option<With>, ix: IndexRef) -> (r: bool)
    ensures
        r == allowed(with_view(with), ix),
{
    match with {
        None => true,
        Some(With::NoIndex) => false,
        Some(With::Index(list)) => {
            let mut i: usize = 0;
            while i < list.len()
                invariant
                    i <= list@.len(),
                    with_view(with) == Some(WithView::Index(list@)),
                    forall|j: int| 0 <= j < i ==> list@[j] != ix,
                decreases list@.len() - i,
            {
                if list[i] == ix {
                    assert(list@[i as int] == ix);
                    return true;
                }
                i = i + 1;
            }
            false
        },
    }
}

fn select(ls: &Vec<Leaf>, with: &Option<With>, want_range: bool) -> (r: Vec<(ExprRef, IndexOption)>)
    ensures
        r@ == if want_range { ranges(ls@, with_view(with)) } else { points(ls@, with_view(with)) },
{
    let ghost w = with_view(with);
    let mut out: Vec<(ExprRef, IndexOption)> = Vec::new();
    let mut i: usize = 0;
    while i < ls.len()
        invariant
            i <= ls@.len(),
            w == with_view(with),
            out@ == if want_range { ranges(ls@.subrange(0, i as int), w) } else { points(ls@.subrange(0, i as int), w) },
        decreases ls@.len() - i,
    {
        let l = ls[i];
        let ghost pre = ls@.subrange(0, i as int);
        assert(ls@.subrange(0, i + 1).drop_last() =~= pre);
        match l.io {
            Some(io) => {
                let ok = is_allowed(with, io.ix);
                let kind_ok = if want_range {
                    io.op == Operator::LessThan || io.op == Operator::LessThanOrEqual || io.op == Operator::MoreThan
                        || io.op == Operator::MoreThanOrEqual
                } else {
                    io.op == Operator::Equal
                };
                if ok && kind_ok {
                    out.push((l.expr, io));
                }
            },
            None => {},
        }
        i = i + 1;
    }
    assert(ls@.subrange(0, ls@.len() as int) =~= ls@);
    out
}

fn range_of_exec(e: ExprRef, io: IndexOption) -> (r: (RangeValue, RangeValue))
    ensures
        r.0 == range_of(e, io).from,
        r.1 == range_of(e, io).to,
{
    let v = RangeValue { value: Some(io.value), inclusive: io.op == Operator::MoreThanOrEqual || io.op == Operator::LessThanOrEqual };
    if io.op == Operator::MoreThan || io.op == Operator::MoreThanOrEqual {
        (v, RangeValue { value: None, inclusive: false })
    } else {
        (RangeValue { value: None, inclusive: false }, v)
    }
}

fn tighter(a: RangeValue, b: RangeValue, lower: bool) -> (r: RangeValue)
    ensures
        r == if lower { tighter_from(a, b) } else { tighter_to(a, b) },
{
    match (a.value, b.value) {
        (None, _) => b,
        (_, None) => a,
        (Some(x), Some(y)) => {
            if (lower && x > y) || (!lower && x < y) {
                a
            } else if (lower && y > x) || (!lower && y < x) {
                b
            } else {
                RangeValue { value: Some(x), inclusive: a.inclusive && b.inclusive }
            }
        },
    }
}

fn merge_ranges(rs: &Vec<(ExprRef, IndexOption)>, ix: IndexRef) -> (r: RangeQuery)
    ensures
        r@ == merged(rs@, ix),
{
    let mut exprs: Vec<ExprRef> = Vec::new();
    let mut from = RangeValue { value: None, inclusive: false };
    let mut to = RangeValue { value: None, inclusive: false };
    let mut i: usize = 0;
    while i < rs.len()
        invariant
            i <= rs@.len(),
            merged(rs@.subrange(0, i as int), ix) == (RangeQueryView { exprs: exprs@, from, to }),
        decreases rs@.len() - i,
    {
        let (e, io) = rs[i];
        assert(rs@.subrange(0, i + 1).drop_last() =~= rs@.subrange(0, i as int));
        if io.ix == ix {
            let (f, t) = range_of_exec(e, io);
            from = tighter(from, f, true);
            to = tighter(to, t, false);
            exprs.push(e);
        }
        i = i + 1;
    }
    assert(rs@.subrange(0, rs@.len() as int) =~= rs@);
    RangeQuery { exprs, from, to }
}

fn separate_ranges(rs: &Vec<(ExprRef, IndexOption)>) -> (r: Vec<(IndexRef, RangeQuery)>)
    ensures
        ranges_view(r@) == separate(rs@),
{
    let mut out: Vec<(IndexRef, RangeQuery)> = Vec::new();
    let mut i: usize = 0;
    while i < rs.len()
        invariant
            i <= rs@.len(),
            ranges_view(out@) == separate(rs@.subrange(0, i as int)),
        decreases rs@.len() - i,
    {
        let (e, io) = rs[i];
        let (f, t) = range_of_exec(e, io);
        let mut exprs: Vec<ExprRef> = Vec::new();
        exprs.push(e);
        let ghost before = out@;
        assert(exprs@ =~= seq![e]);
        let ghost item = (io.ix, RangeQueryView { exprs: exprs@, from: f, to: t });
        out.push((io.ix, RangeQuery { exprs, from: f, to: t }));
        i = i + 1;
        assert(ranges_view(out@) =~= ranges_view(before).push(item));
        assert(rs@.subrange(0, i as int) =~= rs@.subrange(0, i - 1).push(rs@[i - 1]));
        assert(separate(rs@.subrange(0, i as int)) =~= separate(rs@.subrange(0, i - 1)).push(item));
    }
    assert(rs@.subrange(0, rs@.len() as int) =~= rs@);
    out
}

fn first_on(ps: &Vec<(ExprRef, IndexOption)>, ix: IndexRef) -> (r: Option<usize>)
    ensures
        match r {
            Some(i) => i < ps@.len() && first_on_index(ps@, ix) == Some(i as int),
            None => first_on_index(ps@, ix) is None,
        },
{
    let mut i: usize = 0;
    while i < ps.len()
        invariant
            i <= ps@.len(),
            first_on_index(ps@.subrange(0, i as int), ix) is None,
        decreases ps@.len() - i,
    {
        assert(ps@.subrange(0, i + 1).drop_last() =~= ps@.subrange(0, i as int));
        if ps[i].1.ix == ix {
            proof {
                lemma_first_on_index_prefix(ps@, ix, i as int + 1);
            }
            return Some(i);
        }
        i = i + 1;
    }
    assert(ps@.subrange(0, ps@.len() as int) =~= ps@);
    None
}

proof fn lemma_first_on_index_prefix(ps: Seq<(ExprRef, IndexOption)>, ix: IndexRef, k: int)
    requires
        0 < k <= ps.len(),
        first_on_index(ps.subrange(0, k), ix) is Some,
    ensures
        first_on_index(ps, ix) == first_on_index(ps.subrange(0, k), ix),
    decreases ps.len() - k,
{
    if k < ps.len() {
        assert(ps.subrange(0, k + 1).drop_last() =~= ps.subrange(0, k));
        assert(first_on_index(ps.subrange(0, k + 1), ix) == first_on_index(ps.subrange(0, k), ix));
        lemma_first_on_index_prefix(ps, ix, k + 1);
    } else {
        assert(ps.subrange(0, k) =~= ps);
    }
}

proof fn lemma_select_len(ls: Seq<Leaf>, w: Option<WithView>)
    ensures
        points(ls, w).len() + ranges(ls, w).len() <= ls.len(),
    decreases ls.len(),
{
    if ls.len() > 0 {
        lemma_select_len(ls.drop_last(), w);
    }
}

fn order_plan_exec(with: &Option<With>, order: Option<IndexOption>, fallback: Option<Fallback>) -> (r: Plan)
    ensures
        r@ == order_plan(with_view(with), order, fallback),
{
    match order {
        Some(o) => if is_allowed(with, o.ix) {
            Plan::SingleIndex(None, o)
        } else {
            Plan::TableIterator(fallback)
        },
        None => Plan::TableIterator(fallback),
    }
}

/// Chooses the plan of a table; see `build_spec` for the rules.
pub fn build(root: &Option<Node>, with: &Option<With>, order: Option<IndexOption>) -> (r: Plan)
    ensures
        r@ == build_spec(*root, with_view(with), order),
{
    if let Some(With::NoIndex) = with {
        return Plan::TableIterator(Some(Fallback::WithNoIndex));
    }
    match root {
        None => order_plan_exec(with, order, None),
        Some(n) => {
            let mut ls: Vec<Leaf> = Vec::new();
            collect_leaves(n, &mut ls);
            assert(ls@ =~= leaves(*n));
            let ps = select(&ls, with, false);
            let rs = select(&ls, with, true);
            if ps.len() == 0 && rs.len() == 0 {
                return order_plan_exec(with, order, Some(Fallback::NoIndexFound));
            }
            proof {
                lemma_select_len(ls@, with_view(with));
            }
            let n_leaves = ls.len();
            assert(ps@.len() + rs@.len() <= n_leaves);
            if is_all_and(n) {
                let on_order = match order {
                    Some(o) => first_on(&ps, o.ix),
                    None => None,
                };
                match on_order {
                    Some(i) => Plan::SingleIndex(Some(ps[i].0), ps[i].1),
                    None => if ps.len() > 0 {
                        Plan::SingleIndex(Some(ps[0].0), ps[0].1)
                    } else {
                        let ix = rs[0].1.ix;
                        Plan::SingleIndexRange(ix, merge_ranges(&rs, ix))
                    },
                }
            } else if ps.len() + rs.len() == n_leaves {
                let sep = separate_ranges(&rs);
                Plan::MultiIndex(ps, sep)
            } else {
                order_plan_exec(with, order, Some(Fallback::NoIndexFound))
            }
        },
    }
}

/// Identical condition, hints and order index always give the same plan.
pub proof fn lemma_plan_deterministic(
    root1: Option<Node>,
    root2: Option<Node>,
    with1: Option<WithView>,
    with2: Option<WithView>,
    order1: Option<IndexOption>,
    order2: Option<IndexOption>,
)
    requires
        root1 == root2,
        with1 == with2,
        order1 == order2,
    ensures
        build_spec(root1, with1, order1) == build_spec(root2, with2, order2),
{
}

} // verus!
