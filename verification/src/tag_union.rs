//! Unification of two tag unions.
use vstd::prelude::*;
use crate::types::{
    Variable, TagName, FlatType, Content, EMPTY_TAG_UNION, vars_below, tags_below, list_below,
    copy_tags, lemma_tags_below_mono,
};
use crate::maps::{
    get_shared, relative_complement, union, insert, lemma_union_all, lemma_insert_all,
    lemma_complement_all, lemma_shared_all,
};
use crate::subs::{Subs, chase_ext_tag_union, lemma_get_below, lemma_coarsens_trans};
use crate::model::{
    ctx_below, model_gather_tags, model_unify_tag_union, model_unify_tag_exts,
    model_unify_split_tags, model_unify_shared_tags, model_match_tags, model_match_vars, step_is,
    tag_pairs_below, lemma_ctx_mono, lemma_tag_pairs_mono, pool_extends, lemma_pool_extends_trans,
};
use crate::unify::{Context, Pool, Outcome, mismatch, merge, fresh, unify_pool_with};

verus! {
/// A tag union gathered along the chain of its extensions.
pub(crate) struct TagUnionStructure {
    pub(crate) tags: Vec<(TagName, Vec<Variable>)>,
    pub(crate) ext: Variable,
}

/// Gathers the tags of a tag union along the chain of its extensions.
#[verifier::loop_isolation(false)]
pub(crate) fn gather_tags(
    subs: &Subs,
    tags: Vec<(TagName, Vec<Variable>)>,
    var: Variable,
    Ghost(fuel): Ghost<nat>,
) -> (r: TagUnionStructure)
    requires
        subs@.wf(),
        var < subs@.len(),
        tags_below(tags.deep_view(), subs@.len()),
        model_gather_tags(subs@, tags.deep_view(), var, fuel) is Some,
    ensures
        (r.tags.deep_view(), r.ext) == model_gather_tags(subs@, tags.deep_view(), var, fuel)->Some_0,
        tags_below(r.tags.deep_view(), subs@.len()),
        r.ext < subs@.len(),
{
    let ghost target = model_gather_tags(subs@, tags.deep_view(), var, fuel);
    let mut tags = tags;
    let mut var = var;
    let ghost mut f = fuel;
    loop
        invariant
            var < subs@.len(),
            tags_below(tags.deep_view(), subs@.len()),
            model_gather_tags(subs@, tags.deep_view(), var, f) == target,
        decreases f,
    {
        proof {
            lemma_get_below(subs@, var);
        }
        match subs.content(var) {
            Content::Structure(FlatType::TagUnion(sub_tags, sub_ext)) => {
                let sub_copy = copy_tags(sub_tags);
                proof {
                    lemma_union_all(tags.deep_view(), sub_copy.deep_view(), list_below(subs@.len()));
                }
                tags = union(tags, sub_copy);
                var = *sub_ext;
                proof {
                    f = (f - 1) as nat;
                }
            },
            Content::Alias(_, _, real_var) => {
                var = *real_var;
                proof {
                    f = (f - 1) as nat;
                }
            },
            _ => {
                return TagUnionStructure { tags, ext: var };
            },
        }
    }
}


/// Unifies two tag unions given with their gathered tags and extensions,
/// and the recursion variables of those that are recursive.
pub(crate) fn unify_tag_union(
    subs: &mut Subs,
    pool: &mut Pool,
    ctx: &Context,
    rec1: TagUnionStructure,
    rec2: TagUnionStructure,
    recursion: (Option<Variable>, Option<Variable>),
    Ghost(fuel): Ghost<nat>,
) -> (r: Outcome)
    requires
        old(subs)@.wf(),
        ctx_below(ctx@, old(subs)@.len()),
        tags_below(rec1.tags.deep_view(), old(subs)@.len()),
        tags_below(rec2.tags.deep_view(), old(subs)@.len()),
        rec1.ext < old(subs)@.len(),
        rec2.ext < old(subs)@.len(),
        recursion.0 matches Some(v) ==> v < old(subs)@.len(),
        recursion.1 matches Some(v) ==> v < old(subs)@.len(),
        model_unify_tag_union(
            old(subs)@,
            old(pool)@,
            ctx@,
            rec1.tags.deep_view(),
            rec1.ext,
            rec2.tags.deep_view(),
            rec2.ext,
            recursion.0,
            recursion.1,
            fuel,
        ) is Some,
    ensures
        step_is(
            model_unify_tag_union(
                old(subs)@,
                old(pool)@,
                ctx@,
                rec1.tags.deep_view(),
                rec1.ext,
                rec2.tags.deep_view(),
                rec2.ext,
                recursion.0,
                recursion.1,
                fuel,
            ),
            final(subs)@,
            final(pool)@,
            r@,
        ),
        final(subs)@.wf(),
        old(subs)@.coarsens_to(final(subs)@),
        pool_extends(old(subs)@.len(), old(pool)@, final(pool)@),
    decreases fuel,
{
    let ghost f = (fuel - 1) as nat;
    let ghost s0 = subs@;
    let ghost p0 = pool@;
    let ghost n0 = subs@.len();
    let recursion_var = match recursion {
        (None, None) => None,
        (Some(v), None) => Some(v),
        (None, Some(v)) => Some(v),
        (Some(v1), Some(v2)) => {
            let _ = unify_pool_with(subs, pool, v1, v2, Ghost(f));
            Some(v1)
        },
    };
    let ghost s1 = subs@;
    proof {
        lemma_ctx_mono(ctx@, n0, s1.len());
        lemma_tags_below_mono(rec1.tags.deep_view(), n0, s1.len());
        lemma_tags_below_mono(rec2.tags.deep_view(), n0, s1.len());
    }
    let r = unify_tag_exts(subs, pool, ctx, rec1.tags, rec1.ext, rec2.tags, rec2.ext, recursion_var, Ghost(f));
    proof {
        lemma_coarsens_trans(s0, s1, subs@);
    }
    r
}

/// Unifies two tag unions once their recursion variables are settled: the
/// tags of each that the other lacks go to its extension.
pub(crate) fn unify_tag_exts(
    subs: &mut Subs,
    pool: &mut Pool,
    ctx: &Context,
    tags1: Vec<(TagName, Vec<Variable>)>,
    ext1: Variable,
    tags2: Vec<(TagName, Vec<Variable>)>,
    ext2: Variable,
    recursion_var: Option<Variable>,
    Ghost(fuel): Ghost<nat>,
) -> (r: Outcome)
    requires
        old(subs)@.wf(),
        ctx_below(ctx@, old(subs)@.len()),
        tags_below(tags1.deep_view(), old(subs)@.len()),
        tags_below(tags2.deep_view(), old(subs)@.len()),
        ext1 < old(subs)@.len(),
        ext2 < old(subs)@.len(),
        recursion_var matches Some(v) ==> v < old(subs)@.len(),
        model_unify_tag_exts(
            old(subs)@,
            old(pool)@,
            ctx@,
            tags1.deep_view(),
            ext1,
            tags2.deep_view(),
            ext2,
            recursion_var,
            fuel,
        ) is Some,
    ensures
        step_is(
            model_unify_tag_exts(
                old(subs)@,
                old(pool)@,
                ctx@,
                tags1.deep_view(),
                ext1,
                tags2.deep_view(),
                ext2,
                recursion_var,
                fuel,
            ),
            final(subs)@,
            final(pool)@,
            r@,
        ),
        final(subs)@.wf(),
        old(subs)@.coarsens_to(final(subs)@),
        pool_extends(old(subs)@.len(), old(pool)@, final(pool)@),
    decreases fuel,
{
    let ghost f = (fuel - 1) as nat;
    let ghost s0 = subs@;
    let ghost p0 = pool@;
    let ghost n = subs@.len();
    let shared_tags = get_shared(&tags1, &tags2);
    let unique_tags1 = relative_complement(&tags1, &tags2);
    let unique_tags2 = relative_complement(&tags2, &tags1);
    proof {
        lemma_shared_all(tags1.deep_view(), tags2.deep_view(), list_below(n));
        lemma_complement_all(tags1.deep_view(), tags2.deep_view(), list_below(n));
        lemma_complement_all(tags2.deep_view(), tags1.deep_view(), list_below(n));
        assert(tag_pairs_below(shared_tags.deep_view(), n));
    }
    if unique_tags1.len() == 0 {
        if unique_tags2.len() == 0 {
            let ext_problems = unify_pool_with(subs, pool, ext1, ext2, Ghost(f));
            if ext_problems.len() > 0 {
                return ext_problems;
            }
            let ghost s1 = subs@;
            proof {
                lemma_ctx_mono(ctx@, n, s1.len());
                lemma_tag_pairs_mono(shared_tags.deep_view(), n, s1.len());
            }
            let other_tags: Vec<(TagName, Vec<Variable>)> = Vec::new();
            let r = unify_shared_tags(subs, pool, ctx, shared_tags, other_tags, ext1, recursion_var, Ghost(f));
            proof {
                lemma_coarsens_trans(s0, s1, subs@);
            }
            r
        } else {
            let flat_type = FlatType::TagUnion(unique_tags2, ext2);
            let sub_record = fresh(subs, pool, ctx, Content::Structure(flat_type));
            let ghost s1 = subs@;
            let ghost q1 = pool@;
            let ext_problems = unify_pool_with(subs, pool, ext1, sub_record, Ghost(f));
            proof {
                lemma_pool_extends_trans(s0.len(), p0, s1.len(), q1, pool@);
                lemma_coarsens_trans(s0, s1, subs@);
            }
            if ext_problems.len() > 0 {
                return ext_problems;
            }
            let ghost s2 = subs@;
            proof {
                lemma_ctx_mono(ctx@, n, s2.len());
                lemma_tag_pairs_mono(shared_tags.deep_view(), n, s2.len());
            }
            let other_tags: Vec<(TagName, Vec<Variable>)> = Vec::new();
            let r = unify_shared_tags(subs, pool, ctx, shared_tags, other_tags, sub_record, recursion_var, Ghost(f));
            proof {
                lemma_coarsens_trans(s0, s2, subs@);
            }
            r
        }
    } else if unique_tags2.len() == 0 {
        let flat_type = FlatType::TagUnion(unique_tags1, ext1);
        let sub_record = fresh(subs, pool, ctx, Content::Structure(flat_type));
        let ghost s1 = subs@;
        let ghost q1 = pool@;
        let ext_problems = unify_pool_with(subs, pool, sub_record, ext2, Ghost(f));
        proof {
            lemma_pool_extends_trans(s0.len(), p0, s1.len(), q1, pool@);
            lemma_coarsens_trans(s0, s1, subs@);
        }
        if ext_problems.len() > 0 {
            return ext_problems;
        }
        let ghost s2 = subs@;
        proof {
            lemma_ctx_mono(ctx@, n, s2.len());
            lemma_tag_pairs_mono(shared_tags.deep_view(), n, s2.len());
        }
        let other_tags: Vec<(TagName, Vec<Variable>)> = Vec::new();
        let r = unify_shared_tags(subs, pool, ctx, shared_tags, other_tags, sub_record, recursion_var, Ghost(f));
        proof {
            lemma_coarsens_trans(s0, s2, subs@);
        }
        r
    } else {
        unify_split_tags(
            subs,
            pool,
            ctx,
            shared_tags,
            unique_tags1,
            ext1,
            unique_tags2,
            ext2,
            recursion_var,
            Ghost(f),
        )
    }
}

/// Unifies two tag unions that each have tags the other lacks: each
/// extension is unified with a union of the other's own tags over one fresh
/// extension, and a failure there is rolled back.
pub(crate) fn unify_split_tags(
    subs: &mut Subs,
    pool: &mut Pool,
    ctx: &Context,
    shared_tags: Vec<(TagName, (Vec<Variable>, Vec<Variable>))>,
    unique_tags1: Vec<(TagName, Vec<Variable>)>,
    ext1: Variable,
    unique_tags2: Vec<(TagName, Vec<Variable>)>,
    ext2: Variable,
    recursion_var: Option<Variable>,
    Ghost(fuel): Ghost<nat>,
) -> (r: Outcome)
    requires
        old(subs)@.wf(),
        ctx_below(ctx@, old(subs)@.len()),
        tag_pairs_below(shared_tags.deep_view(), old(subs)@.len()),
        tags_below(unique_tags1.deep_view(), old(subs)@.len()),
        tags_below(unique_tags2.deep_view(), old(subs)@.len()),
        ext1 < old(subs)@.len(),
        ext2 < old(subs)@.len(),
        recursion_var matches Some(v) ==> v < old(subs)@.len(),
        model_unify_split_tags(
            old(subs)@,
            old(pool)@,
            ctx@,
            shared_tags.deep_view(),
            unique_tags1.deep_view(),
            ext1,
            unique_tags2.deep_view(),
            ext2,
            recursion_var,
            fuel,
        ) is Some,
    ensures
        step_is(
            model_unify_split_tags(
                old(subs)@,
                old(pool)@,
                ctx@,
                shared_tags.deep_view(),
                unique_tags1.deep_view(),
                ext1,
                unique_tags2.deep_view(),
                ext2,
                recursion_var,
                fuel,
            ),
            final(subs)@,
            final(pool)@,
            r@,
        ),
        final(subs)@.wf(),
        old(subs)@.coarsens_to(final(subs)@),
        pool_extends(old(subs)@.len(), old(pool)@, final(pool)@),
    decreases fuel,
{
    let ghost f = (fuel - 1) as nat;
    let ghost s0 = subs@;
    let ghost p0 = pool@;
    let ghost n = subs@.len();
    proof {
        lemma_union_all(unique_tags1.deep_view(), unique_tags2.deep_view(), list_below(n));
    }
    let other_tags = union(copy_tags(&unique_tags1), copy_tags(&unique_tags2));
    let ext = fresh(subs, pool, ctx, Content::FlexVar(None));
    let ghost n1 = subs@.len();
    proof {
        lemma_tags_below_mono(unique_tags1.deep_view(), n, n1);
        lemma_tags_below_mono(unique_tags2.deep_view(), n, n1);
    }
    let flat_type1 = FlatType::TagUnion(unique_tags1, ext);
    let flat_type2 = FlatType::TagUnion(unique_tags2, ext);
    let ghost s1 = subs@;
    let sub1 = fresh(subs, pool, ctx, Content::Structure(flat_type1));
    proof {
        lemma_tags_below_mono(unique_tags2.deep_view(), n1, subs@.len());
    }
    let ghost s2 = subs@;
    let sub2 = fresh(subs, pool, ctx, Content::Structure(flat_type2));
    let ghost s3 = subs@;
    proof {
        lemma_coarsens_trans(s0, s1, s2);
        lemma_coarsens_trans(s0, s2, s3);
    }
    // a failed extension unification is rolled back, so that the mismatch
    // is reported between the tag unions as they were given
    let snapshot = subs.snapshot();
    let ext1_problems = unify_pool_with(subs, pool, ext1, sub2, Ghost(f));
    let ghost s4 = subs@;
    proof {
        lemma_coarsens_trans(s0, s3, s4);
    }
    if ext1_problems.len() > 0 {
        subs.rollback_to(snapshot);
        return ext1_problems;
    }
    let ext2_problems = unify_pool_with(subs, pool, sub1, ext2, Ghost(f));
    let ghost s5 = subs@;
    proof {
        lemma_coarsens_trans(s0, s4, s5);
    }
    if ext2_problems.len() > 0 {
        subs.rollback_to(snapshot);
        return ext2_problems;
    }
    subs.commit_snapshot(snapshot);
    proof {
        lemma_ctx_mono(ctx@, n, s5.len());
        lemma_tag_pairs_mono(shared_tags.deep_view(), n, s5.len());
        lemma_tags_below_mono(other_tags.deep_view(), n, s5.len());
    }
    let r = unify_shared_tags(subs, pool, ctx, shared_tags, other_tags, ext, recursion_var, Ghost(f));
    proof {
        lemma_coarsens_trans(s0, s5, subs@);
    }
    r
}

/// Unifies the payloads of the shared tags, then merges the context's
/// classes into a tag union of the matching tags, `other_tags` and the
/// tags of the extension chain from `ext`.
#[verifier::loop_isolation(false)]
pub(crate) fn unify_shared_tags(
    subs: &mut Subs,
    pool: &mut Pool,
    ctx: &Context,
    shared_tags: Vec<(TagName, (Vec<Variable>, Vec<Variable>))>,
    other_tags: Vec<(TagName, Vec<Variable>)>,
    ext: Variable,
    recursion_var: Option<Variable>,
    Ghost(fuel): Ghost<nat>,
) -> (r: Outcome)
    requires
        old(subs)@.wf(),
        ctx_below(ctx@, old(subs)@.len()),
        tag_pairs_below(shared_tags.deep_view(), old(subs)@.len()),
        tags_below(other_tags.deep_view(), old(subs)@.len()),
        ext < old(subs)@.len(),
        recursion_var matches Some(v) ==> v < old(subs)@.len(),
        model_unify_shared_tags(
            old(subs)@,
            old(pool)@,
            ctx@,
            shared_tags.deep_view(),
            other_tags.deep_view(),
            ext,
            recursion_var,
            fuel,
        ) is Some,
    ensures
        step_is(
            model_unify_shared_tags(
                old(subs)@,
                old(pool)@,
                ctx@,
                shared_tags.deep_view(),
                other_tags.deep_view(),
                ext,
                recursion_var,
                fuel,
            ),
            final(subs)@,
            final(pool)@,
            r@,
        ),
        final(subs)@.wf(),
        old(subs)@.coarsens_to(final(subs)@),
        pool_extends(old(subs)@.len(), old(pool)@, final(pool)@),
    decreases fuel,
{
    let ghost f = (fuel - 1) as nat;
    let ghost g = (f - 1) as nat;
    let ghost s0 = subs@;
    let ghost p0 = pool@;
    let ghost n0 = subs@.len();
    let ghost target = model_match_tags(subs@, pool@, shared_tags.deep_view(), 0, Seq::empty(), f);
    let mut matching_tags: Vec<(TagName, Vec<Variable>)> = Vec::new();
    assert(matching_tags.deep_view() =~= Seq::<(TagName, Seq<Variable>)>::empty());
    let num_shared_tags = shared_tags.len();
    let mut i: usize = 0;
    while i < num_shared_tags
        invariant
            subs@.wf(),
            s0.coarsens_to(subs@),
            pool_extends(s0.len(), p0, pool@),
            i <= num_shared_tags,
            tags_below(matching_tags.deep_view(), n0),
            model_match_tags(subs@, pool@, shared_tags.deep_view(), i as int, matching_tags.deep_view(), f)
                == target,
        decreases num_shared_tags - i,
    {
        let name = shared_tags[i].0;
        let actual_vars = &shared_tags[i].1.0;
        let expected_vars = &shared_tags[i].1.1;
        let ghost av = actual_vars@;
        let ghost ev = expected_vars@;
        assert(shared_tags.deep_view()[i as int] == (name, (av, ev)));
        assert(list_below(n0)(av) && list_below(n0)(ev));
        let ghost target_vars = model_match_vars(subs@, pool@, av, ev, 0, Seq::empty(), g);
        let ghost s_tag = subs@;
        let mut matching_vars: Vec<Variable> = Vec::new();
        let actual_len = actual_vars.len();
        let expected_len = expected_vars.len();
        let mut j: usize = 0;
        while j < actual_len && j < expected_len
            invariant
                subs@.wf(),
                s0.coarsens_to(subs@),
                pool_extends(s0.len(), p0, pool@),
                s_tag.coarsens_to(subs@),
                j <= actual_len,
                vars_below(matching_vars@, n0),
                model_match_vars(subs@, pool@, av, ev, j as int, matching_vars@, g) == target_vars,
            decreases actual_len - j,
        {
            let actual = actual_vars[j];
            let expected = expected_vars[j];
            let ghost s1 = subs@;
            let ghost q1 = pool@;
            let problems = unify_pool_with(subs, pool, actual, expected, Ghost((g - 1) as nat));
            proof {
                lemma_pool_extends_trans(s0.len(), p0, s1.len(), q1, pool@);
                lemma_coarsens_trans(s0, s1, subs@);
                lemma_coarsens_trans(s_tag, s1, subs@);
            }
            if problems.len() == 0 {
                matching_vars.push(actual);
            }
            j += 1;
        }
        // the lengths are checked only after unification, so that the
        // payloads are unified as far as both go
        if actual_len == expected_len && actual_len == matching_vars.len() {
            proof {
                assert(list_below(n0)(matching_vars.deep_view()));
                assert(matching_vars.deep_view() =~= matching_vars@);
                lemma_insert_all(matching_tags.deep_view(), name, matching_vars.deep_view(), list_below(n0));
            }
            matching_tags = insert(matching_tags, name, matching_vars);
        }
        i += 1;
    }
    if num_shared_tags == matching_tags.len() {
        let ghost n1 = subs@.len();
        proof {
            lemma_tags_below_mono(matching_tags.deep_view(), n0, n1);
            lemma_tags_below_mono(other_tags.deep_view(), n0, n1);
            lemma_union_all(matching_tags.deep_view(), other_tags.deep_view(), list_below(n1));
            lemma_ctx_mono(ctx@, n0, n1);
        }
        // merge the tags of the extension into this tag union
        let mut fields: Vec<(TagName, Vec<Variable>)> = Vec::new();
        assert(tags_below(fields.deep_view(), n1));
        let chased = chase_ext_tag_union(subs, ext, &mut fields, Ghost(f));
        let new_ext_var = match chased {
            Ok(()) => EMPTY_TAG_UNION,
            Err(new) => new,
        };
        let new_tags = union(matching_tags, other_tags);
        proof {
            lemma_union_all(new_tags.deep_view(), fields.deep_view(), list_below(n1));
        }
        let new_tags = union(new_tags, fields);
        let flat_type = match recursion_var {
            Some(rec) => FlatType::RecursiveTagUnion(rec, new_tags, new_ext_var),
            None => FlatType::TagUnion(new_tags, new_ext_var),
        };
        let ghost s1 = subs@;
        let r = merge(subs, ctx, Content::Structure(flat_type));
        proof {
            lemma_coarsens_trans(s0, s1, subs@);
        }
        r
    } else {
        mismatch()
    }
}

} // verus!
