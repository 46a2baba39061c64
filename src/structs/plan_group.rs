//! Plan groups: a plan's operator together with the selections,
//! projections and aggregate stacked on it.
use vstd::prelude::*;

use crate::structs::plan;
use crate::structs::plan::Plan;
use crate::structs::{Expr, Symbol};

verus! {

/// An operator with the filters, projected names and aggregate applied to
/// its result, innermost first.
#[derive(Debug)]
pub struct PlanGroup {
    pub oper_item: OperItem,
    pub selection: Vec<FilterExpr>,
    pub projection: Vec<Symbol>,
    pub item_reduce: Option<ReduceOperator>,
}

/// The operator of a group.
#[derive(Debug)]
pub enum OperItem {
    CartesianProduct(Box<PlanGroup>, Box<PlanGroup>),
    Difference(Box<PlanGroup>, Box<PlanGroup>),
    Intersect(Box<PlanGroup>, Box<PlanGroup>),
    Division(Box<PlanGroup>, Box<PlanGroup>),
    Union(Box<PlanGroup>, Box<PlanGroup>),
    Table(String),
}

/// An aggregate function.
#[derive(Debug, Clone, Copy, PartialEq, Eq, Structural)]
pub enum ReduceOperator {
    Sum,
    Avg,
    Count,
    Max,
    Min,
}

/// A filter of a group; conjunctions are split into separate filters.
#[derive(Debug)]
pub enum FilterExpr {
    Or(Vec<Box<CompExpr>>),
    Not(Box<CompExpr>),
    Comp(Box<CompExpr>),
    Range(u64, u64),
    GetItem(u64),
    GetFirst,
    GetLast,
}

/// A comparison of a group; `In` tests membership in a sub-group.
#[derive(Debug)]
pub enum CompExpr {
    Eq(Box<Expr>, Box<Expr>),
    Lt(Box<Expr>, Box<Expr>),
    Gt(Box<Expr>, Box<Expr>),
    In(Box<Expr>, Box<PlanGroup>),
}

/// Why a plan cannot be grouped.
#[derive(Debug, Clone, Copy, PartialEq, Eq, Structural)]
pub enum PlanError {
    /// An aggregate is applied to a result that is already aggregated.
    MultipleAggregatesNotSupported,
}

/// The plan that an aggregate reads.
pub open spec fn reduce_input(item: plan::ItemReduce) -> Plan {
    match item {
        plan::ItemReduce::Count(a) => *a,
        plan::ItemReduce::Sum(a, _) => *a,
        plan::ItemReduce::Avg(a, _) => *a,
        plan::ItemReduce::Max(a, _) => *a,
        plan::ItemReduce::Min(a, _) => *a,
    }
}

/// The aggregate function of an aggregation.
pub open spec fn reduce_operator(item: plan::ItemReduce) -> ReduceOperator {
    match item {
        plan::ItemReduce::Count(_) => ReduceOperator::Count,
        plan::ItemReduce::Sum(_, _) => ReduceOperator::Sum,
        plan::ItemReduce::Avg(_, _) => ReduceOperator::Avg,
        plan::ItemReduce::Max(_, _) => ReduceOperator::Max,
        plan::ItemReduce::Min(_, _) => ReduceOperator::Min,
    }
}

/// A plan can be grouped when each chain of selections, projections and
/// aggregates above an operator holds at most one aggregate (none when
/// `reduced`, where one is already taken), throughout the plan and its
/// sub-plans.
pub open spec fn groupable(p: Plan, reduced: bool) -> bool
    decreases p,
{
    match p {
        Plan::Product(a, b) => groupable(*a, false) && groupable(*b, false),
        Plan::Union(a, b) => groupable(*a, false) && groupable(*b, false),
        Plan::Difference(a, b) => groupable(*a, false) && groupable(*b, false),
        Plan::Intersect(a, b) => groupable(*a, false) && groupable(*b, false),
        Plan::Division(a, b) => groupable(*a, false) && groupable(*b, false),
        Plan::Table(_) => true,
        Plan::Selection(a, f) => filter_groupable(*f) && groupable(*a, reduced),
        Plan::Projection(a, _) => groupable(*a, reduced),
        Plan::Reduce(item) => !reduced && groupable(reduce_input(item), true),
    }
}

/// The sub-plans of a filter can be grouped.
pub open spec fn filter_groupable(f: plan::FilterExpr) -> bool
    decreases f,
{
    match f {
        plan::FilterExpr::And(cs) => forall|i: int|
            0 <= i < cs@.len() ==> comp_groupable(*#[trigger] cs@[i]),
        plan::FilterExpr::Or(cs) => forall|i: int|
            0 <= i < cs@.len() ==> comp_groupable(*#[trigger] cs@[i]),
        plan::FilterExpr::Not(c) => comp_groupable(*c),
        plan::FilterExpr::Comp(c) => comp_groupable(*c),
        _ => true,
    }
}

/// The sub-plan of a comparison can be grouped.
pub open spec fn comp_groupable(c: plan::CompExpr) -> bool
    decreases c,
{
    match c {
        plan::CompExpr::In(_, b) => groupable(*b, false),
        _ => true,
    }
}

/// The names that the chain above the operator of `p` projects, outermost
/// first; an aggregate contributes its target field.
pub open spec fn chain_names(p: Plan) -> Seq<Symbol>
    decreases p,
{
    match p {
        Plan::Selection(a, _) => chain_names(*a),
        Plan::Projection(a, names) => names@ + chain_names(*a),
        Plan::Reduce(item) => match item {
            plan::ItemReduce::Count(a) => chain_names(*a),
            plan::ItemReduce::Sum(a, s) => seq![s] + chain_names(*a),
            plan::ItemReduce::Avg(a, s) => seq![s] + chain_names(*a),
            plan::ItemReduce::Max(a, s) => seq![s] + chain_names(*a),
            plan::ItemReduce::Min(a, s) => seq![s] + chain_names(*a),
        },
        _ => Seq::empty(),
    }
}

/// `d` is the comparison `c` with its sub-plan grouped.
pub open spec fn comp_converted(c: plan::CompExpr, d: CompExpr) -> bool
    decreases c, 0nat,
{
    match (c, d) {
        (plan::CompExpr::Eq(a, b), CompExpr::Eq(x, y)) => x == a && y == b,
        (plan::CompExpr::Lt(a, b), CompExpr::Lt(x, y)) => x == a && y == b,
        (plan::CompExpr::Gt(a, b), CompExpr::Gt(x, y)) => x == a && y == b,
        (plan::CompExpr::In(a, p), CompExpr::In(x, g)) => x == a && grouped(*p, *g),
        _ => false,
    }
}

/// `ds` are the comparisons `cs`, converted one for one.
pub open spec fn comps_converted(cs: Seq<Box<plan::CompExpr>>, ds: Seq<Box<CompExpr>>) -> bool
    decreases cs, 0nat,
{
    ds.len() == cs.len() && forall|i: int|
        0 <= i < cs.len() ==> comp_converted(*#[trigger] cs[i], *ds[i])
}

/// `gs` are the group filters that the plan filter `f` becomes: one
/// comparison per conjunct of a conjunction, else one filter of the same
/// kind.
pub open spec fn filter_converted(f: plan::FilterExpr, gs: Seq<FilterExpr>) -> bool
    decreases f, 0nat,
{
    match f {
        plan::FilterExpr::And(cs) => gs.len() == cs@.len() && forall|i: int|
            0 <= i < cs@.len() ==> match #[trigger] gs[i] {
                FilterExpr::Comp(d) => comp_converted(*cs@[i], *d),
                _ => false,
            },
        plan::FilterExpr::Or(cs) => gs.len() == 1 && match gs[0] {
            FilterExpr::Or(ds) => comps_converted(cs@, ds@),
            _ => false,
        },
        plan::FilterExpr::Not(c) => gs.len() == 1 && match gs[0] {
            FilterExpr::Not(d) => comp_converted(*c, *d),
            _ => false,
        },
        plan::FilterExpr::Comp(c) => gs.len() == 1 && match gs[0] {
            FilterExpr::Comp(d) => comp_converted(*c, *d),
            _ => false,
        },
        plan::FilterExpr::Range(a, b) => gs == seq![FilterExpr::Range(a, b)],
        plan::FilterExpr::GetItem(n) => gs == seq![FilterExpr::GetItem(n)],
        plan::FilterExpr::GetFirst => gs == seq![FilterExpr::GetFirst],
        plan::FilterExpr::GetLast => gs == seq![FilterExpr::GetLast],
    }
}

/// How many group filters the plan filter `f` becomes.
pub open spec fn converted_len(f: plan::FilterExpr) -> nat {
    match f {
        plan::FilterExpr::And(cs) => cs@.len(),
        _ => 1,
    }
}

/// `gs` are the group filters of the chain above the operator of `p`,
/// outermost first.
pub open spec fn chain_filters(p: Plan, gs: Seq<FilterExpr>) -> bool
    decreases p, 1nat,
{
    match p {
        Plan::Selection(a, f) => {
            let n = converted_len(*f) as int;
            n <= gs.len() && filter_converted(*f, gs.take(n)) && chain_filters(*a, gs.skip(n))
        },
        Plan::Projection(a, _) => chain_filters(*a, gs),
        Plan::Reduce(item) => chain_filters(reduce_input(item), gs),
        _ => gs.len() == 0,
    }
}

/// The aggregate of the chain above the operator of `p`, if any.
pub open spec fn chain_reduce(p: Plan) -> Option<ReduceOperator>
    decreases p,
{
    match p {
        Plan::Selection(a, _) => chain_reduce(*a),
        Plan::Projection(a, _) => chain_reduce(*a),
        Plan::Reduce(item) => Some(reduce_operator(item)),
        _ => None,
    }
}

/// `o` is the operator at the bottom of the chain of `p`, with its inputs
/// grouped.
pub open spec fn chain_operator(p: Plan, o: OperItem) -> bool
    decreases p, 0nat,
{
    match p {
        Plan::Selection(a, _) => chain_operator(*a, o),
        Plan::Projection(a, _) => chain_operator(*a, o),
        Plan::Reduce(item) => chain_operator(reduce_input(item), o),
        Plan::Product(a, b) => match o {
            OperItem::CartesianProduct(ga, gb) => grouped(*a, *ga) && grouped(*b, *gb),
            _ => false,
        },
        Plan::Union(a, b) => match o {
            OperItem::Union(ga, gb) => grouped(*a, *ga) && grouped(*b, *gb),
            _ => false,
        },
        Plan::Difference(a, b) => match o {
            OperItem::Difference(ga, gb) => grouped(*a, *ga) && grouped(*b, *gb),
            _ => false,
        },
        Plan::Intersect(a, b) => match o {
            OperItem::Intersect(ga, gb) => grouped(*a, *ga) && grouped(*b, *gb),
            _ => false,
        },
        Plan::Division(a, b) => match o {
            OperItem::Division(ga, gb) => grouped(*a, *ga) && grouped(*b, *gb),
            _ => false,
        },
        Plan::Table(t) => match o {
            OperItem::Table(u) => u@ == t@,
            _ => false,
        },
    }
}

/// `g` is the group of `p`: its operator with grouped inputs, and the
/// filters, names and aggregate of the chain above it, innermost first.
pub open spec fn grouped(p: Plan, g: PlanGroup) -> bool
    decreases p, 2nat,
{
    &&& chain_operator(p, g.oper_item)
    &&& g.projection@ == chain_names(p).reverse()
    &&& chain_filters(p, g.selection@.reverse())
    &&& g.item_reduce == chain_reduce(p)
}

/// The items of `v` in reverse order.
fn reversed<T>(v: Vec<T>) -> (r: Vec<T>)
    ensures
        r@ == v@.reverse(),
{
    let ghost orig = v@;
    let mut v = v;
    let mut out: Vec<T> = Vec::new();
    while v.len() > 0
        invariant
            v@ == orig.subrange(0, v@.len() as int),
            out@.len() + v@.len() == orig.len(),
            forall|i: int| 0 <= i < out@.len() ==> out@[i] == orig[orig.len() - 1 - i],
        decreases v.len(),
    {
        let x = v.pop().unwrap();
        out.push(x);
    }
    assert(out@ =~= orig.reverse());
    out
}

proof fn lemma_reduced_chain(p: Plan)
    requires
        groupable(p, true),
    ensures
        chain_reduce(p) is None,
    decreases p,
{
    match p {
        Plan::Selection(a, _) => lemma_reduced_chain(*a),
        Plan::Projection(a, _) => lemma_reduced_chain(*a),
        _ => {},
    }
}

/// Converts one comparison.
fn comp_from_plan(c: plan::CompExpr) -> (r: Result<CompExpr, PlanError>)
    ensures
        r is Ok <==> comp_groupable(c),
        r is Ok ==> comp_converted(c, r->Ok_0),
    decreases c, 0nat,
{
    match c {
        plan::CompExpr::Eq(a, b) => Ok(CompExpr::Eq(a, b)),
        plan::CompExpr::Lt(a, b) => Ok(CompExpr::Lt(a, b)),
        plan::CompExpr::Gt(a, b) => Ok(CompExpr::Gt(a, b)),
        plan::CompExpr::In(a, b) => match PlanGroup::from_plan(*b) {
            Ok(g) => Ok(CompExpr::In(a, Box::new(g))),
            Err(e) => Err(e),
        },
    }
}

/// Converts a list of comparisons, keeping their order.
fn comps_from_plan(cs: Vec<Box<plan::CompExpr>>) -> (r: Result<Vec<Box<CompExpr>>, PlanError>)
    ensures
        r is Ok <==> forall|i: int| 0 <= i < cs@.len() ==> comp_groupable(*#[trigger] cs@[i]),
        r is Ok ==> comps_converted(cs@, r->Ok_0@),
    decreases cs, 0nat,
{
    let ghost orig = cs;
    let mut rest = cs;
    let mut out: Vec<Box<CompExpr>> = Vec::new();
    while rest.len() > 0
        invariant
            orig == cs,
            rest@ == orig@.subrange(out@.len() as int, orig@.len() as int),
            out@.len() <= orig@.len(),
            forall|i: int| 0 <= i < out@.len() ==> comp_groupable(*#[trigger] orig@[i]),
            forall|i: int| 0 <= i < out@.len() ==> comp_converted(*#[trigger] orig@[i], *out@[i]),
        decreases rest.len(),
    {
        let ghost k = out@.len() as int;
        let c = rest.remove(0);
        proof {
            assert(c == orig@[k]);
            assert(decreases_to!(orig => orig[k]));
            assert(decreases_to!(orig => *c));
        }
        match comp_from_plan(*c) {
            Ok(x) => out.push(Box::new(x)),
            Err(e) => {
                proof {
                    assert(!comp_groupable(*orig@[k]));
                }
                return Err(e);
            },
        }
    }
    Ok(out)
}

/// Converts a filter other than a conjunction.
fn filter_from_plan(f: plan::FilterExpr) -> (r: Result<FilterExpr, PlanError>)
    requires
        !(f is And),
    ensures
        r is Ok <==> filter_groupable(f),
        r is Ok ==> filter_converted(f, seq![r->Ok_0]),
    decreases f, 0nat,
{
    match f {
        plan::FilterExpr::Or(cs) => match comps_from_plan(cs) {
            Ok(v) => Ok(FilterExpr::Or(v)),
            Err(e) => Err(e),
        },
        plan::FilterExpr::Not(c) => match comp_from_plan(*c) {
            Ok(x) => Ok(FilterExpr::Not(Box::new(x))),
            Err(e) => Err(e),
        },
        plan::FilterExpr::Comp(c) => match comp_from_plan(*c) {
            Ok(x) => Ok(FilterExpr::Comp(Box::new(x))),
            Err(e) => Err(e),
        },
        plan::FilterExpr::Range(a, b) => Ok(FilterExpr::Range(a, b)),
        plan::FilterExpr::GetItem(n) => Ok(FilterExpr::GetItem(n)),
        plan::FilterExpr::GetFirst => Ok(FilterExpr::GetFirst),
        plan::FilterExpr::GetLast => Ok(FilterExpr::GetLast),
        plan::FilterExpr::And(_) => vstd::pervasive::unreached(),
    }
}

/// Walks down the chain of selections, projections and an aggregate above
/// an operator, collecting them outermost first, and returns the operator
/// with its inputs grouped. A second aggregate in one chain is an error.
pub fn load_plan(
    i: Plan,
    selection: &mut Vec<FilterExpr>,
    projection: &mut Vec<Symbol>,
    item_reduce: &mut Option<ReduceOperator>,
) -> (r: Result<OperItem, PlanError>)
    ensures
        r is Ok <==> groupable(i, (*old(item_reduce)) is Some),
        r is Ok ==> chain_operator(i, r->Ok_0),
        r is Ok ==> final(projection)@ == old(projection)@ + chain_names(i),
        r is Ok ==> old(selection)@.len() <= final(selection)@.len() && final(selection)@.take(
            old(selection)@.len() as int,
        ) == old(selection)@ && chain_filters(
            i,
            final(selection)@.skip(old(selection)@.len() as int),
        ),
        r is Ok ==> *final(item_reduce) == match chain_reduce(i) {
            Some(o) => Some(o),
            None => *old(item_reduce),
        },
    decreases i, 0nat,
{
    match i {
        Plan::Product(a, b) => match (PlanGroup::from_plan(*a), PlanGroup::from_plan(*b)) {
            (Ok(ga), Ok(gb)) => Ok(OperItem::CartesianProduct(Box::new(ga), Box::new(gb))),
            (Err(e), _) => Err(e),
            (_, Err(e)) => Err(e),
        },
        Plan::Difference(a, b) => match (PlanGroup::from_plan(*a), PlanGroup::from_plan(*b)) {
            (Ok(ga), Ok(gb)) => Ok(OperItem::Difference(Box::new(ga), Box::new(gb))),
            (Err(e), _) => Err(e),
            (_, Err(e)) => Err(e),
        },
        Plan::Intersect(a, b) => match (PlanGroup::from_plan(*a), PlanGroup::from_plan(*b)) {
            (Ok(ga), Ok(gb)) => Ok(OperItem::Intersect(Box::new(ga), Box::new(gb))),
            (Err(e), _) => Err(e),
            (_, Err(e)) => Err(e),
        },
        Plan::Division(a, b) => match (PlanGroup::from_plan(*a), PlanGroup::from_plan(*b)) {
            (Ok(ga), Ok(gb)) => Ok(OperItem::Division(Box::new(ga), Box::new(gb))),
            (Err(e), _) => Err(e),
            (_, Err(e)) => Err(e),
        },
        Plan::Union(a, b) => match (PlanGroup::from_plan(*a), PlanGroup::from_plan(*b)) {
            (Ok(ga), Ok(gb)) => Ok(OperItem::Union(Box::new(ga), Box::new(gb))),
            (Err(e), _) => Err(e),
            (_, Err(e)) => Err(e),
        },
        Plan::Table(t) => Ok(OperItem::Table(t)),
        Plan::Selection(a, b) => {
            let ghost sel0 = selection@;
            match *b {
                plan::FilterExpr::And(v) => {
                    let cs = match comps_from_plan(v) {
                        Ok(cs) => cs,
                        Err(e) => {
                            proof {
                                assert(!filter_groupable(*b));
                            }
                            return Err(e);
                        },
                    };
                    proof {
                        assert(filter_groupable(*b));
                    }
                    let ghost conv = cs@;
                    let mut rest = cs;
                    while rest.len() > 0
                        invariant
                            rest@.len() <= conv.len(),
                            rest@ == conv.skip(conv.len() - rest@.len()),
                            selection@.len() == sel0.len() + (conv.len() - rest@.len()),
                            selection@.take(sel0.len() as int) == sel0,
                            forall|j: int|
                                0 <= j < conv.len() - rest@.len() ==> #[trigger] selection@[sel0.len()
                                    + j] == FilterExpr::Comp(conv[j]),
                        decreases rest.len(),
                    {
                        let ghost done = conv.len() - rest@.len();
                        let c = rest.remove(0);
                        proof {
                            assert(c == conv[done]);
                        }
                        selection.push(FilterExpr::Comp(c));
                        proof {
                            assert(rest@ =~= conv.skip(conv.len() - rest@.len()));
                            assert(selection@.take(sel0.len() as int) =~= sel0);
                        }
                    }
                    proof {
                        let gs = selection@.skip(sel0.len() as int);
                        assert forall|j: int| 0 <= j < gs.len() implies gs[j] == FilterExpr::Comp(conv[j]) by {
                            assert(selection@[sel0.len() + j] == FilterExpr::Comp(conv[j]));
                        }
                        assert(filter_converted(*b, gs));
                    }
                },
                other => {
                    let f = match filter_from_plan(other) {
                        Ok(f) => f,
                        Err(e) => {
                            return Err(e);
                        },
                    };
                    selection.push(f);
                    proof {
                        assert(selection@.skip(sel0.len() as int) =~= seq![f]);
                        assert(selection@.take(sel0.len() as int) =~= sel0);
                    }
                },
            }
            let ghost sel1 = selection@;
            let r = load_plan(*a, selection, projection, item_reduce);
            proof {
                if r is Ok {
                    let n = converted_len(*b) as int;
                    let gs = selection@.skip(sel0.len() as int);
                    assert(sel1.len() == sel0.len() + n);
                    assert(gs.take(n) =~= sel1.skip(sel0.len() as int));
                    assert(gs.skip(n) =~= selection@.skip(sel1.len() as int));
                    assert(selection@.take(sel0.len() as int) =~= sel1.take(sel0.len() as int));
                }
            }
            r
        },
        Plan::Projection(a, b) => {
            let ghost p0 = projection@;
            let mut b = b;
            projection.append(&mut b);
            let r = load_plan(*a, selection, projection, item_reduce);
            proof {
                if r is Ok {
                    assert(projection@ =~= p0 + chain_names(i));
                }
            }
            r
        },
        Plan::Reduce(item) => {
            if item_reduce.is_some() {
                return Err(PlanError::MultipleAggregatesNotSupported);
            }
            let ghost p0 = projection@;
            match item {
                plan::ItemReduce::Count(a) => {
                    *item_reduce = Some(ReduceOperator::Count);
                    let r = load_plan(*a, selection, projection, item_reduce);
                    proof {
                        if r is Ok {
                            lemma_reduced_chain(*a);
                        }
                    }
                    r
                },
                plan::ItemReduce::Sum(a, s) => {
                    *item_reduce = Some(ReduceOperator::Sum);
                    projection.push(s);
                    let r = load_plan(*a, selection, projection, item_reduce);
                    proof {
                        if r is Ok {
                            lemma_reduced_chain(*a);
                            assert(projection@ =~= p0 + chain_names(i));
                        }
                    }
                    r
                },
                plan::ItemReduce::Avg(a, s) => {
                    *item_reduce = Some(ReduceOperator::Avg);
                    projection.push(s);
                    let r = load_plan(*a, selection, projection, item_reduce);
                    proof {
                        if r is Ok {
                            lemma_reduced_chain(*a);
                            assert(projection@ =~= p0 + chain_names(i));
                        }
                    }
                    r
                },
                plan::ItemReduce::Max(a, s) => {
                    *item_reduce = Some(ReduceOperator::Max);
                    projection.push(s);
                    let r = load_plan(*a, selection, projection, item_reduce);
                    proof {
                        if r is Ok {
                            lemma_reduced_chain(*a);
                            assert(projection@ =~= p0 + chain_names(i));
                        }
                    }
                    r
                },
                plan::ItemReduce::Min(a, s) => {
                    *item_reduce = Some(ReduceOperator::Min);
                    projection.push(s);
                    let r = load_plan(*a, selection, projection, item_reduce);
                    proof {
                        if r is Ok {
                            lemma_reduced_chain(*a);
                            assert(projection@ =~= p0 + chain_names(i));
                        }
                    }
                    r
                },
            }
        },
    }
}

impl PlanGroup {
    /// Groups a plan: its operator with the filters, projected names and
    /// aggregate above it, innermost first.
    pub fn from_plan(i: Plan) -> (r: Result<PlanGroup, PlanError>)
        ensures
            r is Ok <==> groupable(i, false),
            r is Ok ==> grouped(i, r->Ok_0),
        decreases i, 1nat,
    {
        let mut selection: Vec<FilterExpr> = Vec::new();
        let mut projection: Vec<Symbol> = Vec::new();
        let mut item_reduce: Option<ReduceOperator> = None;
        let oper_item = match load_plan(i, &mut selection, &mut projection, &mut item_reduce) {
            Ok(o) => o,
            Err(e) => {
                return Err(e);
            },
        };
        proof {
            assert(selection@.skip(0) =~= selection@);
            assert(projection@ =~= Seq::<Symbol>::empty() + chain_names(i));
        }
        let ghost s0 = selection@;
        let selection = reversed(selection);
        let projection = reversed(projection);
        proof {
            assert(s0.reverse().reverse() =~= s0);
            assert(chain_filters(i, selection@.reverse()));
        }
        Ok(PlanGroup { oper_item, selection, projection, item_reduce })
    }
}

} // verus!
