//! Unification of two structures.
use vstd::prelude::*;
use crate::types::{
    Variable, Bool, FlatType, Content, vars_below, copy_vars, copy_fields, copy_tags,
};
use crate::subs::{Subs, gather_fields, lemma_coarsens_trans};
use crate::model::{
    ctx_below, collect_roots, model_unify_flat_type, model_unify_bool, step_is, lemma_ctx_mono,
    lemma_vars_below_mono, pool_extends,
};
use crate::unify::{Context, Pool, Outcome, mismatch, merge, unify_pool_with, unify_zip, unify_each};
use crate::record::unify_record;
use crate::tag_union::{gather_tags, unify_tag_union};

verus! {
/// Whether `v` occurs in `vs`.
pub(crate) fn contains_var(vs: &Vec<Variable>, v: Variable) -> (r: bool)
    ensures
        r == vs@.contains(v),
{
    let mut i: usize = 0;
    while i < vs.len()
        invariant
            i <= vs.len(),
            forall|j: int| 0 <= j < i ==> vs@[j] != v,
        decreases vs.len() - i,
    {
        if vs[i] == v {
            assert(vs@[i as int] == v);
            return true;
        }
        i += 1;
    }
    false
}

/// The roots of `vs`, in order, each once, without those whose class holds
/// the shared attribute.
pub(crate) fn collect_roots_of(subs: &Subs, vs: &Vec<Variable>) -> (r: Vec<Variable>)
    requires
        subs@.wf(),
        vars_below(vs@, subs@.len()),
    ensures
        r@ == collect_roots(subs@, vs@),
        vars_below(r@, subs@.len()),
{
    let mut r: Vec<Variable> = Vec::new();
    let mut i: usize = 0;
    assert(vs@.take(0) =~= Seq::<Variable>::empty());
    while i < vs.len()
        invariant
            subs@.wf(),
            vars_below(vs@, subs@.len()),
            i <= vs.len(),
            r@ == collect_roots(subs@, vs@.take(i as int)),
            vars_below(r@, subs@.len()),
        decreases vs.len() - i,
    {
        assert(vs@.take(i + 1).drop_last() =~= vs@.take(i as int));
        assert(vs@[i as int] < subs@.len());
        let root = subs.get_root_key(vs[i]);
        if !subs.var_is_shared(root) && !contains_var(&r, root) {
            r.push(root);
        }
        i += 1;
    }
    assert(vs@.take(i as int) =~= vs@);
    r
}

/// Unifies two structures.
pub(crate) fn unify_flat_type(
    subs: &mut Subs,
    pool: &mut Pool,
    ctx: &Context,
    left: &FlatType,
    right: &FlatType,
    Ghost(fuel): Ghost<nat>,
) -> (r: Outcome)
    requires
        old(subs)@.wf(),
        ctx_below(ctx@, old(subs)@.len()),
        left@.below(old(subs)@.len()),
        right@.below(old(subs)@.len()),
        model_unify_flat_type(old(subs)@, old(pool)@, ctx@, left@, right@, fuel) is Some,
    ensures
        step_is(
            model_unify_flat_type(old(subs)@, old(pool)@, ctx@, left@, right@, fuel),
            final(subs)@,
            final(pool)@,
            r@,
        ),
        final(subs)@.wf(),
        old(subs)@.coarsens_to(final(subs)@),
        pool_extends(old(subs)@.len(), old(pool)@, final(pool)@),
    decreases fuel,
{
    let ghost f = (fuel - 1) as nat;
    let ghost g = (f - 1) as nat;
    match left {
        FlatType::EmptyRecord => match right {
            FlatType::EmptyRecord => merge(subs, ctx, Content::Structure(FlatType::EmptyRecord)),
            FlatType::Record(fields, ext) => if fields.len() == 0 {
                unify_pool_with(subs, pool, ctx.first, *ext, Ghost(f))
            } else {
                mismatch()
            },
            _ => mismatch(),
        },
        FlatType::Record(fields1, ext1) => match right {
            FlatType::EmptyRecord => if fields1.len() == 0 {
                unify_pool_with(subs, pool, *ext1, ctx.second, Ghost(f))
            } else {
                mismatch()
            },
            FlatType::Record(fields2, ext2) => {
                let rec1 = gather_fields(subs, copy_fields(fields1), *ext1, Ghost(f));
                let rec2 = gather_fields(subs, copy_fields(fields2), *ext2, Ghost(f));
                unify_record(subs, pool, ctx, rec1, rec2, Ghost(f))
            },
            _ => mismatch(),
        },
        FlatType::EmptyTagUnion => match right {
            FlatType::EmptyTagUnion => merge(subs, ctx, Content::Structure(FlatType::EmptyTagUnion)),
            FlatType::TagUnion(tags, ext) => if tags.len() == 0 {
                unify_pool_with(subs, pool, ctx.first, *ext, Ghost(f))
            } else {
                mismatch()
            },
            _ => mismatch(),
        },
        FlatType::TagUnion(tags1, ext1) => match right {
            FlatType::EmptyTagUnion => if tags1.len() == 0 {
                unify_pool_with(subs, pool, *ext1, ctx.second, Ghost(f))
            } else {
                mismatch()
            },
            FlatType::TagUnion(tags2, ext2) => {
                let union1 = gather_tags(subs, copy_tags(tags1), *ext1, Ghost(g));
                let union2 = gather_tags(subs, copy_tags(tags2), *ext2, Ghost(g));
                unify_tag_union(subs, pool, ctx, union1, union2, (None, None), Ghost(g))
            },
            FlatType::RecursiveTagUnion(recursion_var, tags2, ext2) => {
                let union1 = gather_tags(subs, copy_tags(tags1), *ext1, Ghost(g));
                let union2 = gather_tags(subs, copy_tags(tags2), *ext2, Ghost(g));
                unify_tag_union(subs, pool, ctx, union1, union2, (None, Some(*recursion_var)), Ghost(g))
            },
            _ => mismatch(),
        },
        FlatType::RecursiveTagUnion(rec1, tags1, ext1) => match right {
            FlatType::RecursiveTagUnion(rec2, tags2, ext2) => {
                let union1 = gather_tags(subs, copy_tags(tags1), *ext1, Ghost(g));
                let union2 = gather_tags(subs, copy_tags(tags2), *ext2, Ghost(g));
                unify_tag_union(subs, pool, ctx, union1, union2, (Some(*rec1), Some(*rec2)), Ghost(g))
            },
            _ => mismatch(),
        },
        FlatType::Boolean(b1) => match right {
            FlatType::Boolean(b2) => unify_boolean(subs, pool, ctx, b1, b2, Ghost(f)),
            _ => mismatch(),
        },
        FlatType::Apply(l_symbol, l_args) => match right {
            FlatType::Apply(r_symbol, r_args) => if *l_symbol == *r_symbol {
                let ghost s0 = subs@;
                let problems = unify_zip(subs, pool, l_args, r_args, Ghost(f));
                if problems.len() == 0 {
                    proof {
                        lemma_ctx_mono(ctx@, s0.len(), subs@.len());
                        lemma_vars_below_mono(r_args@, s0.len(), subs@.len());
                    }
                    let ghost s1 = subs@;
                    let r = merge(subs, ctx, Content::Structure(FlatType::Apply(*r_symbol, copy_vars(r_args))));
                    proof {
                        lemma_coarsens_trans(s0, s1, subs@);
                    }
                    r
                } else {
                    problems
                }
            } else {
                mismatch()
            },
            _ => mismatch(),
        },
        FlatType::Func(l_args, l_ret) => match right {
            FlatType::Func(r_args, r_ret) => if l_args.len() == r_args.len() {
                let ghost s0 = subs@;
                let mut arg_problems = unify_zip(subs, pool, l_args, r_args, Ghost(f));
                let ghost s1 = subs@;
                let ret_problems = unify_pool_with(subs, pool, *l_ret, *r_ret, Ghost(f));
                proof {
                    lemma_coarsens_trans(s0, s1, subs@);
                }
                if arg_problems.len() == 0 && ret_problems.len() == 0 {
                    proof {
                        lemma_ctx_mono(ctx@, s0.len(), subs@.len());
                        lemma_vars_below_mono(r_args@, s0.len(), subs@.len());
                    }
                    let ghost s2 = subs@;
                    let r = merge(subs, ctx, Content::Structure(FlatType::Func(copy_vars(r_args), *r_ret)));
                    proof {
                        lemma_coarsens_trans(s0, s2, subs@);
                    }
                    r
                } else {
                    let mut problems = ret_problems;
                    problems.append(&mut arg_problems);
                    problems
                }
            } else {
                mismatch()
            },
            _ => mismatch(),
        },
        FlatType::Erroneous(_) => mismatch(),
    }
}

/// Unifies two uniqueness attributes.
pub(crate) fn unify_boolean(
    subs: &mut Subs,
    pool: &mut Pool,
    ctx: &Context,
    b1: &Bool,
    b2: &Bool,
    Ghost(fuel): Ghost<nat>,
) -> (r: Outcome)
    requires
        old(subs)@.wf(),
        ctx_below(ctx@, old(subs)@.len()),
        b1@.below(old(subs)@.len()),
        b2@.below(old(subs)@.len()),
        model_unify_bool(old(subs)@, old(pool)@, ctx@, b1@, b2@, fuel) is Some,
    ensures
        step_is(model_unify_bool(old(subs)@, old(pool)@, ctx@, b1@, b2@, fuel), final(subs)@, final(pool)@, r@),
        final(subs)@.wf(),
        old(subs)@.coarsens_to(final(subs)@),
        pool_extends(old(subs)@.len(), old(pool)@, final(pool)@),
    decreases fuel,
{
    let ghost f = (fuel - 1) as nat;
    let ghost s0 = subs@;
    let ghost n0 = subs@.len();
    match (b1, b2) {
        (Bool::Shared, Bool::Shared) => merge(subs, ctx, Content::Structure(FlatType::Boolean(Bool::Shared))),
        (Bool::Shared, Bool::Container(cvar, mvars)) => {
            // unify everything with the shared side
            let mut outcome: Outcome = Vec::new();
            let mut first = unify_pool_with(subs, pool, ctx.first, *cvar, Ghost(f));
            outcome.append(&mut first);
            let ghost s1 = subs@;
            proof {
                lemma_vars_below_mono(mvars@, n0, subs@.len());
            }
            unify_each(subs, pool, ctx.first, mvars, &mut outcome, Ghost(f));
            proof {
                lemma_coarsens_trans(s0, s1, subs@);
                lemma_ctx_mono(ctx@, n0, subs@.len());
            }
            // then both sides become shared
            let ghost s2 = subs@;
            let ghost o2 = outcome@;
            let mut merged_outcome = merge(subs, ctx, Content::Structure(FlatType::Boolean(Bool::Shared)));
            proof {
                lemma_coarsens_trans(s0, s2, subs@);
            }
            outcome.append(&mut merged_outcome);
            assert(outcome@ =~= o2);
            outcome
        },
        (Bool::Container(cvar, mvars), Bool::Shared) => {
            let mut outcome: Outcome = Vec::new();
            let mut first = unify_pool_with(subs, pool, ctx.second, *cvar, Ghost(f));
            outcome.append(&mut first);
            let ghost s1 = subs@;
            proof {
                lemma_vars_below_mono(mvars@, n0, subs@.len());
            }
            unify_each(subs, pool, ctx.second, mvars, &mut outcome, Ghost(f));
            proof {
                lemma_coarsens_trans(s0, s1, subs@);
                lemma_ctx_mono(ctx@, n0, subs@.len());
            }
            let ghost s2 = subs@;
            let ghost o2 = outcome@;
            let mut merged_outcome = merge(subs, ctx, Content::Structure(FlatType::Boolean(Bool::Shared)));
            proof {
                lemma_coarsens_trans(s0, s2, subs@);
            }
            outcome.append(&mut merged_outcome);
            assert(outcome@ =~= o2);
            outcome
        },
        (Bool::Container(cvar1, mvars1), Bool::Container(cvar2, mvars2)) => {
            let _ = unify_pool_with(subs, pool, *cvar1, *cvar2, Ghost(f));
            let mut mvars = copy_vars(mvars1);
            let mut more = copy_vars(mvars2);
            mvars.append(&mut more);
            proof {
                lemma_vars_below_mono(mvars@, n0, subs@.len());
                lemma_ctx_mono(ctx@, n0, subs@.len());
            }
            let roots = collect_roots_of(subs, &mvars);
            let ghost s1 = subs@;
            let r = merge(subs, ctx, Content::Structure(FlatType::Boolean(Bool::Container(*cvar1, roots))));
            proof {
                lemma_coarsens_trans(s0, s1, subs@);
            }
            r
        },
    }
}

} // verus!
