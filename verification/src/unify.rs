//! Unification of two type variables: the entry points, and the steps
//! that dispatch on the content of the variables.
use vstd::prelude::*;
use crate::types::{
    Variable, Lowercase, Symbol, Mismatch, Problem, FlatType, Content, Descriptor, ContentModel,
    DescModel, MARK_NONE, RANK_NONE, vars_below, fields_below, var_below, copy_fields,
    lemma_content_below_mono,
};
use crate::maps::union;
use crate::subs::{Subs, SubsModel, lemma_get_below, lemma_union, lemma_coarsens_trans};
use crate::model::{
    ContextModel, type_mismatch, context_of, ctx_below, merged, model_merge, model_fresh, model_unify_flex,
    model_unify_rigid, model_unify_pool, model_unify_context, model_unify_alias, model_unify_args,
    model_unify_zip, model_unify_each, model_unify_structure, unify_pool_returns, pool_fuel,
    unify_pool_result, step_is, lemma_ctx_mono, pool_extends, lemma_pool_extends_trans,
};
use crate::flat_type::unify_flat_type;
use crate::fuel::lemma_unify_pool_result;
use crate::error_type::{ErrorType, error_type_returns, error_type_result};

verus! {

/// The variables created during a unification.
pub type Pool = Vec<Variable>;

/// The mismatches found by a unification step; empty when it succeeded.
pub type Outcome = Vec<Mismatch>;

/// The two variables being unified, with the descriptors their classes had
/// when the step began.
pub struct Context {
    pub first: Variable,
    pub first_desc: Descriptor,
    pub second: Variable,
    pub second_desc: Descriptor,
}

impl View for Context {
    type V = ContextModel;

    open spec fn view(&self) -> ContextModel {
        ContextModel {
            first: self.first,
            first_desc: self.first_desc@,
            second: self.second,
            second_desc: self.second_desc@,
        }
    }
}

/// The outcome of a failed comparison: a single type mismatch.
pub(crate) fn mismatch() -> (r: Outcome)
    ensures
        r@ == type_mismatch(),
{
    let mut r: Outcome = Vec::new();
    r.push(Mismatch::TypeMismatch);
    assert(r@ =~= type_mismatch());
    r
}

/// Merges the classes of the context's two variables and gives them the
/// content `content`, the lower of their ranks, no mark and no copy.
pub fn merge(subs: &mut Subs, ctx: &Context, content: Content) -> (r: Outcome)
    requires
        old(subs)@.wf(),
        ctx.first < old(subs)@.len(),
        ctx.second < old(subs)@.len(),
        content@.below(old(subs)@.len()),
    ensures
        final(subs)@ == model_merge(old(subs)@, ctx@, content@),
        r@ == Seq::<Mismatch>::empty(),
        final(subs)@.wf(),
        old(subs)@.coarsens_to(final(subs)@),
        final(subs)@.equiv(ctx.first, ctx.second),
        final(subs)@.get(ctx.first) == merged(ctx@, content@),
{
    let rank = if ctx.first_desc.rank <= ctx.second_desc.rank {
        ctx.first_desc.rank
    } else {
        ctx.second_desc.rank
    };
    let desc = Descriptor { content, rank, mark: MARK_NONE, copy: None };
    proof {
        lemma_union(subs@, ctx.first, ctx.second, desc@);
    }
    subs.union(ctx.first, ctx.second, desc);
    Vec::new()
}

/// Adds a variable with descriptor `desc` and records it in the pool.
pub(crate) fn register(subs: &mut Subs, desc: Descriptor, pool: &mut Pool) -> (r: Variable)
    requires
        old(subs)@.wf(),
        desc@.content.below(old(subs)@.len()),
    ensures
        final(subs)@ == old(subs)@.fresh(desc@),
        final(pool)@ == old(pool)@.push(r),
        r == old(subs)@.len(),
        final(subs)@.wf(),
        old(subs)@.coarsens_to(final(subs)@),
        pool_extends(old(subs)@.len(), old(pool)@, final(pool)@),
{
    proof {
        lemma_content_below_mono(desc@.content, subs@.len(), subs@.len() + 1);
    }
    let var = subs.fresh(desc);
    pool.push(var);
    var
}

/// Adds a variable with content `content` at the lower rank of the context.
pub(crate) fn fresh(subs: &mut Subs, pool: &mut Pool, ctx: &Context, content: Content) -> (r: Variable)
    requires
        old(subs)@.wf(),
        content@.below(old(subs)@.len()),
    ensures
        (final(subs)@, final(pool)@, r) == model_fresh(old(subs)@, old(pool)@, ctx@, content@),
        r == old(subs)@.len(),
        final(subs)@.wf(),
        old(subs)@.coarsens_to(final(subs)@),
        pool_extends(old(subs)@.len(), old(pool)@, final(pool)@),
{
    let rank = if ctx.first_desc.rank <= ctx.second_desc.rank {
        ctx.first_desc.rank
    } else {
        ctx.second_desc.rank
    };
    register(subs, Descriptor { content, rank, mark: MARK_NONE, copy: None }, pool)
}

/// Unifies `var1` with `var2` (given the fuel that the model needs).
pub(crate) fn unify_pool_with(subs: &mut Subs, pool: &mut Pool, var1: Variable, var2: Variable, Ghost(fuel): Ghost<nat>) -> (r: Outcome)
    requires
        old(subs)@.wf(),
        var1 < old(subs)@.len(),
        var2 < old(subs)@.len(),
        model_unify_pool(old(subs)@, old(pool)@, var1, var2, fuel) is Some,
    ensures
        step_is(model_unify_pool(old(subs)@, old(pool)@, var1, var2, fuel), final(subs)@, final(pool)@, r@),
        final(subs)@.wf(),
        old(subs)@.coarsens_to(final(subs)@),
        pool_extends(old(subs)@.len(), old(pool)@, final(pool)@),
    decreases fuel,
{
    if subs.equivalent(var1, var2) {
        Vec::new()
    } else {
        proof {
            lemma_get_below(subs@, var1);
            lemma_get_below(subs@, var2);
        }
        let ctx = Context { first: var1, first_desc: subs.get(var1), second: var2, second_desc: subs.get(var2) };
        unify_context(subs, pool, ctx, Ghost((fuel - 1) as nat))
    }
}

/// Unifies the two variables of a context, by the content of the first.
pub(crate) fn unify_context(subs: &mut Subs, pool: &mut Pool, ctx: Context, Ghost(fuel): Ghost<nat>) -> (r: Outcome)
    requires
        old(subs)@.wf(),
        ctx_below(ctx@, old(subs)@.len()),
        model_unify_context(old(subs)@, old(pool)@, ctx@, fuel) is Some,
    ensures
        step_is(model_unify_context(old(subs)@, old(pool)@, ctx@, fuel), final(subs)@, final(pool)@, r@),
        final(subs)@.wf(),
        old(subs)@.coarsens_to(final(subs)@),
        pool_extends(old(subs)@.len(), old(pool)@, final(pool)@),
    decreases fuel,
{
    match &ctx.first_desc.content {
        Content::FlexVar(opt_name) => unify_flex(subs, &ctx, opt_name, &ctx.second_desc.content),
        Content::RigidVar(name) => unify_rigid(subs, &ctx, name, &ctx.second_desc.content),
        Content::Structure(flat_type) => unify_structure(
            subs,
            pool,
            &ctx,
            flat_type,
            &ctx.second_desc.content,
            Ghost((fuel - 1) as nat),
        ),
        Content::Alias(symbol, args, real_var) => unify_alias(
            subs,
            pool,
            &ctx,
            *symbol,
            args,
            *real_var,
            Ghost((fuel - 1) as nat),
        ),
        // an error propagates, whatever the other side is
        Content::Error => merge(subs, &ctx, Content::Error),
    }
}

/// Unifies a flexible variable (the first of the context) with `other`.
pub(crate) fn unify_flex(subs: &mut Subs, ctx: &Context, opt_name: &Option<Lowercase>, other: &Content) -> (r: Outcome)
    requires
        old(subs)@.wf(),
        ctx_below(ctx@, old(subs)@.len()),
        other@.below(old(subs)@.len()),
    ensures
        final(subs)@ == model_unify_flex(old(subs)@, ctx@, *opt_name, other@),
        r@ == Seq::<Mismatch>::empty(),
        final(subs)@.wf(),
        old(subs)@.coarsens_to(final(subs)@),
{
    match other {
        // both flexible: keep the first name when only the first has one
        Content::FlexVar(None) => merge(subs, ctx, Content::FlexVar(*opt_name)),
        // otherwise the other side wins (its name too, when both are named)
        Content::FlexVar(Some(_)) | Content::RigidVar(_) | Content::Structure(_) | Content::Alias(_, _, _) => {
            merge(subs, ctx, other.duplicate())
        },
        Content::Error => merge(subs, ctx, Content::Error),
    }
}

/// Unifies a rigid variable (the first of the context) with `other`.
pub(crate) fn unify_rigid(subs: &mut Subs, ctx: &Context, name: &Lowercase, other: &Content) -> (r: Outcome)
    requires
        old(subs)@.wf(),
        ctx_below(ctx@, old(subs)@.len()),
    ensures
        (final(subs)@, r@) == model_unify_rigid(old(subs)@, ctx@, *name, other@),
        final(subs)@.wf(),
        old(subs)@.coarsens_to(final(subs)@),
{
    match other {
        // a flexible variable takes the rigid one
        Content::FlexVar(_) => merge(subs, ctx, Content::RigidVar(*name)),
        // a rigid variable unifies with a flexible one only, whatever the names
        Content::RigidVar(_) | Content::Structure(_) | Content::Alias(_, _, _) => mismatch(),
        Content::Error => merge(subs, ctx, Content::Error),
    }
}


/// Unifies an alias (the first variable of the context) with the second.
#[verifier::loop_isolation(false)]
pub(crate) fn unify_alias(
    subs: &mut Subs,
    pool: &mut Pool,
    ctx: &Context,
    symbol: Symbol,
    args: &Vec<(Lowercase, Variable)>,
    real_var: Variable,
    Ghost(fuel): Ghost<nat>,
) -> (r: Outcome)
    requires
        old(subs)@.wf(),
        ctx_below(ctx@, old(subs)@.len()),
        fields_below(args.deep_view(), old(subs)@.len()),
        real_var < old(subs)@.len(),
        model_unify_alias(old(subs)@, old(pool)@, ctx@, symbol, args.deep_view(), real_var, fuel) is Some,
    ensures
        step_is(
            model_unify_alias(old(subs)@, old(pool)@, ctx@, symbol, args.deep_view(), real_var, fuel),
            final(subs)@,
            final(pool)@,
            r@,
        ),
        final(subs)@.wf(),
        old(subs)@.coarsens_to(final(subs)@),
        pool_extends(old(subs)@.len(), old(pool)@, final(pool)@),
    decreases fuel,
{
    let ghost f = (fuel - 1) as nat;
    let other_content = &ctx.second_desc.content;
    match other_content {
        // the alias wins
        Content::FlexVar(_) => merge(subs, ctx, Content::Alias(symbol, copy_fields(args), real_var)),
        Content::RigidVar(_) => unify_pool_with(subs, pool, real_var, ctx.second, Ghost(f)),
        Content::Alias(other_symbol, other_args, other_real_var) => {
            if symbol == *other_symbol {
                if args.len() == other_args.len() {
                    let ghost s0 = subs@;
                    let ghost p0 = pool@;
                    let ghost n0 = subs@.len();
                    let ghost target = model_unify_args(
                        subs@,
                        pool@,
                        args.deep_view(),
                        other_args.deep_view(),
                        0,
                        Seq::empty(),
                        f,
                    );
                    let mut problems: Outcome = Vec::new();
                    let mut i: usize = 0;
                    while i < args.len()
                        invariant
                            subs@.wf(),
                            s0.coarsens_to(subs@),
                            pool_extends(s0.len(), p0, pool@),
                            i <= args.len(),
                            model_unify_args(
                                subs@,
                                pool@,
                                args.deep_view(),
                                other_args.deep_view(),
                                i as int,
                                problems@,
                                f,
                            ) == target,
                        decreases args.len() - i,
                    {
                        assert(var_below(n0)(args.deep_view()[i as int].1));
                        assert(var_below(n0)(other_args.deep_view()[i as int].1));
                        let ghost s1 = subs@;
                        let ghost q1 = pool@;
                        let mut more = unify_pool_with(subs, pool, args[i].1, other_args[i].1, Ghost((f - 1) as nat));
                        proof {
                            lemma_pool_extends_trans(s0.len(), p0, s1.len(), q1, pool@);
                            lemma_coarsens_trans(s0, s1, subs@);
                        }
                        problems.append(&mut more);
                        i += 1;
                    }
                    proof {
                        lemma_ctx_mono(ctx@, n0, subs@.len());
                        lemma_content_below_mono(other_content@, n0, subs@.len());
                    }
                    let ghost s2 = subs@;
                    let mut merge_problems = merge(subs, ctx, other_content.duplicate());
                    proof {
                        lemma_coarsens_trans(s0, s2, subs@);
                    }
                    problems.append(&mut merge_problems);
                    assert(problems@ =~= target->Some_0.2);
                    problems
                } else {
                    mismatch()
                }
            } else {
                unify_pool_with(subs, pool, real_var, *other_real_var, Ghost(f))
            }
        },
        Content::Structure(_) => unify_pool_with(subs, pool, real_var, ctx.second, Ghost(f)),
        Content::Error => merge(subs, ctx, Content::Error),
    }
}

/// Unifies a structure (the first variable of the context) with `other`.
pub(crate) fn unify_structure(
    subs: &mut Subs,
    pool: &mut Pool,
    ctx: &Context,
    flat_type: &FlatType,
    other: &Content,
    Ghost(fuel): Ghost<nat>,
) -> (r: Outcome)
    requires
        old(subs)@.wf(),
        ctx_below(ctx@, old(subs)@.len()),
        flat_type@.below(old(subs)@.len()),
        other@.below(old(subs)@.len()),
        model_unify_structure(old(subs)@, old(pool)@, ctx@, flat_type@, other@, fuel) is Some,
    ensures
        step_is(
            model_unify_structure(old(subs)@, old(pool)@, ctx@, flat_type@, other@, fuel),
            final(subs)@,
            final(pool)@,
            r@,
        ),
        final(subs)@.wf(),
        old(subs)@.coarsens_to(final(subs)@),
        pool_extends(old(subs)@.len(), old(pool)@, final(pool)@),
    decreases fuel,
{
    let ghost f = (fuel - 1) as nat;
    match other {
        // a flexible variable takes the structure
        Content::FlexVar(_) => merge(subs, ctx, Content::Structure(flat_type.duplicate())),
        Content::RigidVar(_) => {
            // a structure never meets a rigid variable here: the requires
            // leaves out the inputs on which the algorithm panics
            proof {
                assert(false);
            }
            Vec::new()
        },
        Content::Structure(other_flat_type) => unify_flat_type(subs, pool, ctx, flat_type, other_flat_type, Ghost(f)),
        Content::Alias(_, _, real_var) => unify_pool_with(subs, pool, ctx.first, *real_var, Ghost(f)),
        Content::Error => merge(subs, ctx, Content::Error),
    }
}

/// Unifies the variables of `left` and `right` pairwise, as far as both go.
#[verifier::loop_isolation(false)]
pub(crate) fn unify_zip(
    subs: &mut Subs,
    pool: &mut Pool,
    left: &Vec<Variable>,
    right: &Vec<Variable>,
    Ghost(fuel): Ghost<nat>,
) -> (r: Outcome)
    requires
        old(subs)@.wf(),
        vars_below(left@, old(subs)@.len()),
        vars_below(right@, old(subs)@.len()),
        model_unify_zip(old(subs)@, old(pool)@, left@, right@, 0, Seq::empty(), fuel) is Some,
    ensures
        step_is(
            model_unify_zip(old(subs)@, old(pool)@, left@, right@, 0, Seq::empty(), fuel),
            final(subs)@,
            final(pool)@,
            r@,
        ),
        final(subs)@.wf(),
        old(subs)@.coarsens_to(final(subs)@),
        pool_extends(old(subs)@.len(), old(pool)@, final(pool)@),
    decreases fuel,
{
    let ghost s0 = subs@;
    let ghost p0 = pool@;
    let ghost n0 = subs@.len();
    let ghost target = model_unify_zip(subs@, pool@, left@, right@, 0, Seq::empty(), fuel);
    let mut problems: Outcome = Vec::new();
    let mut i: usize = 0;
    while i < left.len() && i < right.len()
        invariant
            subs@.wf(),
            s0.coarsens_to(subs@),
            pool_extends(s0.len(), p0, pool@),
            i <= left.len(),
            model_unify_zip(subs@, pool@, left@, right@, i as int, problems@, fuel) == target,
        decreases left.len() - i,
    {
        let ghost s1 = subs@;
        let ghost q1 = pool@;
        let mut more = unify_pool_with(subs, pool, left[i], right[i], Ghost((fuel - 1) as nat));
        proof {
            lemma_pool_extends_trans(s0.len(), p0, s1.len(), q1, pool@);
            lemma_coarsens_trans(s0, s1, subs@);
        }
        problems.append(&mut more);
        i += 1;
    }
    problems
}

/// Unifies `var` with each of `mvars`, adding the mismatches to `outcome`.
#[verifier::loop_isolation(false)]
pub(crate) fn unify_each(
    subs: &mut Subs,
    pool: &mut Pool,
    var: Variable,
    mvars: &Vec<Variable>,
    outcome: &mut Outcome,
    Ghost(fuel): Ghost<nat>,
)
    requires
        old(subs)@.wf(),
        var < old(subs)@.len(),
        vars_below(mvars@, old(subs)@.len()),
        model_unify_each(old(subs)@, old(pool)@, var, mvars@, 0, old(outcome)@, fuel) is Some,
    ensures
        step_is(
            model_unify_each(old(subs)@, old(pool)@, var, mvars@, 0, old(outcome)@, fuel),
            final(subs)@,
            final(pool)@,
            final(outcome)@,
        ),
        final(subs)@.wf(),
        old(subs)@.coarsens_to(final(subs)@),
        pool_extends(old(subs)@.len(), old(pool)@, final(pool)@),
    decreases fuel,
{
    let ghost s0 = subs@;
    let ghost p0 = pool@;
    let ghost target = model_unify_each(subs@, pool@, var, mvars@, 0, outcome@, fuel);
    let mut i: usize = 0;
    while i < mvars.len()
        invariant
            subs@.wf(),
            s0.coarsens_to(subs@),
            pool_extends(s0.len(), p0, pool@),
            i <= mvars.len(),
            model_unify_each(subs@, pool@, var, mvars@, i as int, outcome@, fuel) == target,
        decreases mvars.len() - i,
    {
        let ghost s1 = subs@;
        let ghost q1 = pool@;
        let mut more = unify_pool_with(subs, pool, var, mvars[i], Ghost((fuel - 1) as nat));
        proof {
            lemma_pool_extends_trans(s0.len(), p0, s1.len(), q1, pool@);
            lemma_coarsens_trans(s0, s1, subs@);
        }
        outcome.append(&mut more);
        i += 1;
    }
}

/// Unifies `var1` with `var2`, recording the variables it creates in `pool`;
/// returns the mismatches found, none when the unification succeeded.  The
/// store, pool and mismatches afterwards are those of `unify_pool_result`.
pub fn unify_pool(subs: &mut Subs, pool: &mut Pool, var1: Variable, var2: Variable) -> (r: Outcome)
    requires
        old(subs)@.wf(),
        var1 < old(subs)@.len(),
        var2 < old(subs)@.len(),
        unify_pool_returns(old(subs)@, old(pool)@, var1, var2),
    ensures
        (final(subs)@, final(pool)@, r@) == unify_pool_result(old(subs)@, old(pool)@, var1, var2),
        final(subs)@.wf(),
        old(subs)@.coarsens_to(final(subs)@),
        pool_extends(old(subs)@.len(), old(pool)@, final(pool)@),
{
    let ghost fuel = pool_fuel(subs@, pool@, var1, var2);
    unify_pool_with(subs, pool, var1, var2, Ghost(fuel))
}

/// Unifying two variables of one class changes nothing and finds no
/// mismatch, whatever the pool.
pub proof fn lemma_unify_pool_equivalent(s: SubsModel, p: Seq<Variable>, a: Variable, b: Variable)
    requires
        s.equiv(a, b),
    ensures
        unify_pool_returns(s, p, a, b),
        unify_pool_result(s, p, a, b) == (s, p, Seq::<Mismatch>::empty()),
{
    assert(model_unify_pool(s, p, a, b, 1) is Some);
}

/// A flexible variable unifies with any variable, on either side: no
/// mismatch, no variable created, and the two are of one class afterwards.
pub proof fn lemma_flex_unifies(s: SubsModel, p: Seq<Variable>, a: Variable, b: Variable)
    requires
        s.wf(),
        a < s.len(),
        b < s.len(),
        s.get(a).content is FlexVar || s.get(b).content is FlexVar,
    ensures
        unify_pool_returns(s, p, a, b),
        unify_pool_result(s, p, a, b).1 == p,
        unify_pool_result(s, p, a, b).2 == Seq::<Mismatch>::empty(),
        unify_pool_result(s, p, a, b).0.equiv(a, b),
{
    lemma_get_below(s, a);
    lemma_get_below(s, b);
    let ctx = context_of(s, a, b);
    if !s.equiv(a, b) {
        let c = match ctx.first_desc.content {
            ContentModel::FlexVar(name) => match ctx.second_desc.content {
                ContentModel::FlexVar(None) => ContentModel::FlexVar(name),
                other => other,
            },
            first => first,
        };
        lemma_union(s, a, b, merged(ctx, c));
        assert(model_unify_context(s, p, ctx, 2) == Some((model_merge(s, ctx, c), p, Seq::<Mismatch>::empty())));
    }
    assert(model_unify_pool(s, p, a, b, 3) is Some);
    lemma_unify_pool_result(s, p, a, b, 3);
}

/// The outcome of unifying two variables, with the variables it created.
#[derive(Debug)]
pub enum Unified {
    Success(Pool),
    Failure(Pool, ErrorType, ErrorType),
    BadType(Pool, Problem),
}

/// The variables that a unification created, whatever its outcome.
pub open spec fn created(r: &Unified) -> Seq<Variable> {
    match r {
        Unified::Success(pool) => pool@,
        Unified::Failure(pool, _, _) => pool@,
        Unified::BadType(pool, _) => pool@,
    }
}

/// The descriptor of a class that holds an error: no rank, no mark, no copy.
pub open spec fn error_desc() -> DescModel {
    DescModel { content: ContentModel::Error, rank: RANK_NONE, mark: MARK_NONE, copy: None }
}

/// Unifying `var1` with `var2` from an empty pool returns, and when it finds
/// mismatches, the types of both variables can then be read back.
pub open spec fn unify_returns(s: SubsModel, var1: Variable, var2: Variable) -> bool {
    &&& unify_pool_returns(s, Seq::empty(), var1, var2)
    &&& ({
        let (s1, _, o) = unify_pool_result(s, Seq::empty(), var1, var2);
        o.len() > 0 ==> error_type_returns(s1, var1) && error_type_returns(s1, var2)
    })
}

/// Unifies `var1` with `var2`.  On success returns the variables it created.
/// On a mismatch it reads back the types of both variables as they stand
/// after the attempt, then joins both classes into one that holds an error:
/// the first problem found in those types is reported if there is one, and
/// the two types otherwise.
pub fn unify(subs: &mut Subs, var1: Variable, var2: Variable) -> (r: Unified)
    requires
        old(subs)@.wf(),
        var1 < old(subs)@.len(),
        var2 < old(subs)@.len(),
        unify_returns(old(subs)@, var1, var2),
    ensures
        final(subs)@.wf(),
        old(subs)@.coarsens_to(final(subs)@),
        pool_extends(old(subs)@.len(), Seq::empty(), created(&r)),
        ({
            let (s1, p1, o) = unify_pool_result(old(subs)@, Seq::empty(), var1, var2);
            if o.len() == 0 {
                &&& final(subs)@ == s1
                &&& r matches Unified::Success(pool) && pool@ == p1
            } else {
                let (t1, pr1) = error_type_result(s1, var1);
                let (t2, pr2) = error_type_result(s1, var2);
                &&& final(subs)@ == s1.union(var1, var2, error_desc())
                &&& final(subs)@.equiv(var1, var2)
                &&& final(subs)@.get(var1).content == ContentModel::Error
                &&& if pr1.len() + pr2.len() > 0 {
                    r matches Unified::BadType(pool, problem) && pool@ == p1 && problem == (pr1 + pr2)[0]
                } else {
                    r matches Unified::Failure(pool, t1_found, t2_found) && pool@ == p1 && t1_found.deep_view() == t1
                        && t2_found.deep_view() == t2
                }
            }
        }),
{
    let mut vars: Pool = Vec::new();
    let ghost s0 = subs@;
    let mismatches = unify_pool(subs, &mut vars, var1, var2);
    if mismatches.len() == 0 {
        Unified::Success(vars)
    } else {
        let (type1, mut problems) = subs.var_to_error_type(var1);
        let (type2, mut problems2) = subs.var_to_error_type(var2);
        problems.append(&mut problems2);
        let ghost s1 = subs@;
        proof {
            lemma_union(s1, var1, var2, error_desc());
            lemma_coarsens_trans(s0, s1, s1.union(var1, var2, error_desc()));
        }
        subs.union(var1, var2, Descriptor::from_content(Content::Error));
        if problems.len() > 0 {
            let first = problems.remove(0);
            Unified::BadType(vars, first)
        } else {
            Unified::Failure(vars, type1, type2)
        }
    }
}

} // verus!
