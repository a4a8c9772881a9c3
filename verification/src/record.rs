//! Unification of two records.
use vstd::prelude::*;
use crate::types::{
    Variable, Lowercase, FlatType, Content, EMPTY_RECORD, fields_below, var_below, copy_fields,
    lemma_fields_below_mono,
};
use crate::maps::{
    get_shared, relative_complement, union, insert, lemma_union_all, lemma_insert_all,
    lemma_complement_all, lemma_shared_all,
};
use crate::subs::{Subs, RecordStructure, chase_ext_record, lemma_coarsens_trans};
use crate::model::{
    ctx_below, model_unify_record, model_unify_shared_fields, model_match_fields, step_is,
    pairs_below, lemma_ctx_mono, lemma_pairs_mono, pool_extends, lemma_pool_extends_trans,
};
use crate::unify::{Context, Pool, Outcome, mismatch, merge, fresh, unify_pool_with};

verus! {

/// Unifies two records given with their gathered fields and extensions.
pub(crate) fn unify_record(
    subs: &mut Subs,
    pool: &mut Pool,
    ctx: &Context,
    rec1: RecordStructure,
    rec2: RecordStructure,
    Ghost(fuel): Ghost<nat>,
) -> (r: Outcome)
    requires
        old(subs)@.wf(),
        ctx_below(ctx@, old(subs)@.len()),
        fields_below(rec1.fields.deep_view(), old(subs)@.len()),
        fields_below(rec2.fields.deep_view(), old(subs)@.len()),
        rec1.ext < old(subs)@.len(),
        rec2.ext < old(subs)@.len(),
        model_unify_record(
            old(subs)@,
            old(pool)@,
            ctx@,
            rec1.fields.deep_view(),
            rec1.ext,
            rec2.fields.deep_view(),
            rec2.ext,
            fuel,
        ) is Some,
    ensures
        step_is(
            model_unify_record(
                old(subs)@,
                old(pool)@,
                ctx@,
                rec1.fields.deep_view(),
                rec1.ext,
                rec2.fields.deep_view(),
                rec2.ext,
                fuel,
            ),
            final(subs)@,
            final(pool)@,
            r@,
        ),
        final(subs)@.wf(),
        old(subs)@.coarsens_to(final(subs)@),
        pool_extends(old(subs)@.len(), old(pool)@, final(pool)@),
    decreases fuel,
{
    let ghost f = (fuel - 1) as nat;
    let ghost s0 = subs@;
    let ghost p0 = pool@;
    let ghost n0 = subs@.len();
    let fields1 = rec1.fields;
    let fields2 = rec2.fields;
    let shared_fields = get_shared(&fields1, &fields2);
    let unique_fields1 = relative_complement(&fields1, &fields2);
    let unique_fields2 = relative_complement(&fields2, &fields1);
    proof {
        lemma_shared_all(fields1.deep_view(), fields2.deep_view(), var_below(n0));
        lemma_complement_all(fields1.deep_view(), fields2.deep_view(), var_below(n0));
        lemma_complement_all(fields2.deep_view(), fields1.deep_view(), var_below(n0));
        assert(pairs_below(shared_fields.deep_view(), n0));
    }
    if unique_fields1.len() == 0 {
        if unique_fields2.len() == 0 {
            let ext_problems = unify_pool_with(subs, pool, rec1.ext, rec2.ext, Ghost(f));
            if ext_problems.len() > 0 {
                return ext_problems;
            }
            let ghost s1 = subs@;
            proof {
                lemma_ctx_mono(ctx@, n0, s1.len());
                lemma_pairs_mono(shared_fields.deep_view(), n0, s1.len());
            }
            let other_fields: Vec<(Lowercase, Variable)> = Vec::new();
            let r = unify_shared_fields(subs, pool, ctx, shared_fields, other_fields, rec1.ext, Ghost(f));
            proof {
                lemma_coarsens_trans(s0, s1, subs@);
            }
            r
        } else {
            let flat_type = FlatType::Record(unique_fields2, rec2.ext);
            let sub_record = fresh(subs, pool, ctx, Content::Structure(flat_type));
            let ghost s1 = subs@;
            let ghost q1 = pool@;
            let ext_problems = unify_pool_with(subs, pool, rec1.ext, sub_record, Ghost(f));
            proof {
                lemma_pool_extends_trans(s0.len(), p0, s1.len(), q1, pool@);
                lemma_coarsens_trans(s0, s1, subs@);
            }
            if ext_problems.len() > 0 {
                return ext_problems;
            }
            let ghost s2 = subs@;
            proof {
                lemma_ctx_mono(ctx@, n0, s2.len());
                lemma_pairs_mono(shared_fields.deep_view(), n0, s2.len());
            }
            let other_fields: Vec<(Lowercase, Variable)> = Vec::new();
            let r = unify_shared_fields(subs, pool, ctx, shared_fields, other_fields, sub_record, Ghost(f));
            proof {
                lemma_coarsens_trans(s0, s2, subs@);
            }
            r
        }
    } else if unique_fields2.len() == 0 {
        let flat_type = FlatType::Record(unique_fields1, rec1.ext);
        let sub_record = fresh(subs, pool, ctx, Content::Structure(flat_type));
        let ghost s1 = subs@;
        let ghost q1 = pool@;
        let ext_problems = unify_pool_with(subs, pool, sub_record, rec2.ext, Ghost(f));
        proof {
            lemma_pool_extends_trans(s0.len(), p0, s1.len(), q1, pool@);
            lemma_coarsens_trans(s0, s1, subs@);
        }
        if ext_problems.len() > 0 {
            return ext_problems;
        }
        let ghost s2 = subs@;
        proof {
            lemma_ctx_mono(ctx@, n0, s2.len());
            lemma_pairs_mono(shared_fields.deep_view(), n0, s2.len());
        }
        let other_fields: Vec<(Lowercase, Variable)> = Vec::new();
        let r = unify_shared_fields(subs, pool, ctx, shared_fields, other_fields, sub_record, Ghost(f));
        proof {
            lemma_coarsens_trans(s0, s2, subs@);
        }
        r
    } else {
        proof {
            lemma_union_all(unique_fields1.deep_view(), unique_fields2.deep_view(), var_below(n0));
        }
        let other_fields = union(copy_fields(&unique_fields1), copy_fields(&unique_fields2));
        let ext = fresh(subs, pool, ctx, Content::FlexVar(None));
        let ghost n1 = subs@.len();
        proof {
            lemma_fields_below_mono(unique_fields1.deep_view(), n0, n1);
            lemma_fields_below_mono(unique_fields2.deep_view(), n0, n1);
        }
        let flat_type1 = FlatType::Record(unique_fields1, ext);
        let flat_type2 = FlatType::Record(unique_fields2, ext);
        let ghost s1 = subs@;
        let sub1 = fresh(subs, pool, ctx, Content::Structure(flat_type1));
        proof {
            lemma_fields_below_mono(unique_fields2.deep_view(), n1, subs@.len());
        }
        let ghost s2 = subs@;
        let sub2 = fresh(subs, pool, ctx, Content::Structure(flat_type2));
        let ghost s3 = subs@;
        proof {
            lemma_coarsens_trans(s0, s1, s2);
            lemma_coarsens_trans(s0, s2, s3);
        }
        let rec1_problems = unify_pool_with(subs, pool, rec1.ext, sub2, Ghost(f));
        let ghost s4 = subs@;
        proof {
            lemma_coarsens_trans(s0, s3, s4);
        }
        if rec1_problems.len() > 0 {
            return rec1_problems;
        }
        let rec2_problems = unify_pool_with(subs, pool, sub1, rec2.ext, Ghost(f));
        let ghost s5 = subs@;
        proof {
            lemma_coarsens_trans(s0, s4, s5);
        }
        if rec2_problems.len() > 0 {
            return rec2_problems;
        }
        proof {
            lemma_ctx_mono(ctx@, n0, s5.len());
            lemma_pairs_mono(shared_fields.deep_view(), n0, s5.len());
            lemma_fields_below_mono(other_fields.deep_view(), n0, s5.len());
        }
        let r = unify_shared_fields(subs, pool, ctx, shared_fields, other_fields, ext, Ghost(f));
        proof {
            lemma_coarsens_trans(s0, s5, subs@);
        }
        r
    }
}

/// Unifies the shared fields of two records, then merges the context's
/// classes into a record of the matching fields, `other_fields` and the
/// fields of the extension chain from `ext`.
#[verifier::loop_isolation(false)]
pub(crate) fn unify_shared_fields(
    subs: &mut Subs,
    pool: &mut Pool,
    ctx: &Context,
    shared_fields: Vec<(Lowercase, (Variable, Variable))>,
    other_fields: Vec<(Lowercase, Variable)>,
    ext: Variable,
    Ghost(fuel): Ghost<nat>,
) -> (r: Outcome)
    requires
        old(subs)@.wf(),
        ctx_below(ctx@, old(subs)@.len()),
        pairs_below(shared_fields.deep_view(), old(subs)@.len()),
        fields_below(other_fields.deep_view(), old(subs)@.len()),
        ext < old(subs)@.len(),
        model_unify_shared_fields(
            old(subs)@,
            old(pool)@,
            ctx@,
            shared_fields.deep_view(),
            other_fields.deep_view(),
            ext,
            fuel,
        ) is Some,
    ensures
        step_is(
            model_unify_shared_fields(
                old(subs)@,
                old(pool)@,
                ctx@,
                shared_fields.deep_view(),
                other_fields.deep_view(),
                ext,
                fuel,
            ),
            final(subs)@,
            final(pool)@,
            r@,
        ),
        final(subs)@.wf(),
        old(subs)@.coarsens_to(final(subs)@),
        pool_extends(old(subs)@.len(), old(pool)@, final(pool)@),
    decreases fuel,
{
    let ghost f = (fuel - 1) as nat;
    let ghost s0 = subs@;
    let ghost p0 = pool@;
    let ghost n0 = subs@.len();
    let ghost target = model_match_fields(subs@, pool@, shared_fields.deep_view(), 0, Seq::empty(), f);
    let mut matching_fields: Vec<(Lowercase, Variable)> = Vec::new();
    assert(matching_fields.deep_view() =~= Seq::<(Lowercase, Variable)>::empty());
    let num_shared_fields = shared_fields.len();
    let mut i: usize = 0;
    while i < num_shared_fields
        invariant
            subs@.wf(),
            s0.coarsens_to(subs@),
            pool_extends(s0.len(), p0, pool@),
            i <= num_shared_fields,
            fields_below(matching_fields.deep_view(), n0),
            model_match_fields(subs@, pool@, shared_fields.deep_view(), i as int, matching_fields.deep_view(), f)
                == target,
        decreases num_shared_fields - i,
    {
        let (name, (actual, expected)) = shared_fields[i];
        assert(var_below(n0)(shared_fields.deep_view()[i as int].1.0));
        assert(var_below(n0)(shared_fields.deep_view()[i as int].1.1));
        let ghost s1 = subs@;
        let ghost q1 = pool@;
        let problems = unify_pool_with(subs, pool, actual, expected, Ghost((f - 1) as nat));
        proof {
            lemma_pool_extends_trans(s0.len(), p0, s1.len(), q1, pool@);
            lemma_coarsens_trans(s0, s1, subs@);
        }
        if problems.len() == 0 {
            proof {
                lemma_insert_all(matching_fields.deep_view(), name, actual, var_below(n0));
            }
            matching_fields = insert(matching_fields, name, actual);
        }
        i += 1;
    }
    if num_shared_fields == matching_fields.len() {
        let ghost n1 = subs@.len();
        proof {
            lemma_fields_below_mono(matching_fields.deep_view(), n0, n1);
            lemma_fields_below_mono(other_fields.deep_view(), n0, n1);
            lemma_union_all(matching_fields.deep_view(), other_fields.deep_view(), var_below(n1));
            lemma_ctx_mono(ctx@, n0, n1);
        }
        // pull fields in from the extension
        let fields = union(matching_fields, other_fields);
        let (fields, chased) = chase_ext_record(subs, ext, fields, Ghost(f));
        let new_ext_var = match chased {
            Ok(()) => EMPTY_RECORD,
            Err(new) => new,
        };
        let flat_type = FlatType::Record(fields, new_ext_var);
        let ghost s1 = subs@;
        let r = merge(subs, ctx, Content::Structure(flat_type));
        proof {
            lemma_coarsens_trans(s0, s1, subs@);
        }
        r
    } else {
        mismatch()
    }
}

} // verus!
