//! The model's result does not depend on its fuel: once a step has a result
//! for some fuel, it has the same result for any larger fuel.  Hence
//! `unify_pool_result` is the result for every fuel that gives one, and so
//! is `error_type_result`.
use vstd::prelude::*;
use crate::types::{Variable, Lowercase, TagName, Symbol, Mismatch, BoolModel, FlatModel, ContentModel};
use crate::maps::{map_union, complement, shared};
use crate::subs::{SubsModel, model_gather_fields, model_chase_record, model_chase_tags};
use crate::model::{
    ContextModel, context_of, model_fresh, model_gather_tags, model_unify_pool, model_unify_context,
    model_unify_alias, model_unify_args, model_unify_zip, model_unify_each, model_unify_structure,
    model_unify_flat_type, model_unify_gathered_tags, model_unify_bool, model_unify_record,
    model_unify_shared_fields, model_match_fields, model_unify_tag_union, model_unify_tag_exts,
    model_unify_split_tags, model_unify_shared_tags, model_match_tags, model_match_vars,
    unify_pool_returns, pool_fuel, unify_pool_result,
};
use crate::error_type::{
    ErrorTypeModel, model_var_err, model_content_err, model_flat_err, model_errs, model_labelled_errs,
    model_field_errs, model_tag_errs, error_type_returns, error_fuel, error_type_result,
};
use crate::types::{Problem, MARK_OCCURS};

verus! {

/// Gathering record fields keeps its result under more fuel.
pub proof fn lemma_mono_gather_fields(
    s: SubsModel,
    fields: Seq<(Lowercase, Variable)>,
    var: Variable,
    f1: nat,
    f2: nat,
)
    requires
        f1 <= f2,
        model_gather_fields(s, fields, var, f1) is Some,
    ensures
        model_gather_fields(s, fields, var, f2) == model_gather_fields(s, fields, var, f1),
    decreases f1,
{
    match s.get(var).content {
        ContentModel::Structure(FlatModel::Record(sub, ext)) => lemma_mono_gather_fields(
            s,
            map_union(fields, sub),
            ext,
            (f1 - 1) as nat,
            (f2 - 1) as nat,
        ),
        ContentModel::Alias(_, _, real_var) => lemma_mono_gather_fields(
            s,
            fields,
            real_var,
            (f1 - 1) as nat,
            (f2 - 1) as nat,
        ),
        _ => {},
    }
}

/// Chasing a record's extensions keeps its result under more fuel.
pub proof fn lemma_mono_chase_record(
    s: SubsModel,
    var: Variable,
    fields: Seq<(Lowercase, Variable)>,
    f1: nat,
    f2: nat,
)
    requires
        f1 <= f2,
        model_chase_record(s, var, fields, f1) is Some,
    ensures
        model_chase_record(s, var, fields, f2) == model_chase_record(s, var, fields, f1),
    decreases f1,
{
    match s.get(var).content {
        ContentModel::Structure(FlatModel::Record(sub, ext)) => lemma_mono_chase_record(
            s,
            ext,
            map_union(fields, sub),
            (f1 - 1) as nat,
            (f2 - 1) as nat,
        ),
        ContentModel::Alias(_, _, real_var) => lemma_mono_chase_record(
            s,
            real_var,
            fields,
            (f1 - 1) as nat,
            (f2 - 1) as nat,
        ),
        _ => {},
    }
}

/// Chasing a tag union's extensions keeps its result under more fuel.
pub proof fn lemma_mono_chase_tags(
    s: SubsModel,
    var: Variable,
    tags: Seq<(TagName, Seq<Variable>)>,
    f1: nat,
    f2: nat,
)
    requires
        f1 <= f2,
        model_chase_tags(s, var, tags, f1) is Some,
    ensures
        model_chase_tags(s, var, tags, f2) == model_chase_tags(s, var, tags, f1),
    decreases f1,
{
    match s.get(var).content {
        ContentModel::Structure(FlatModel::TagUnion(sub, ext)) => lemma_mono_chase_tags(
            s,
            ext,
            tags + sub,
            (f1 - 1) as nat,
            (f2 - 1) as nat,
        ),
        ContentModel::Structure(FlatModel::RecursiveTagUnion(_, sub, ext)) => lemma_mono_chase_tags(
            s,
            ext,
            tags + sub,
            (f1 - 1) as nat,
            (f2 - 1) as nat,
        ),
        ContentModel::Alias(_, _, real_var) => lemma_mono_chase_tags(
            s,
            real_var,
            tags,
            (f1 - 1) as nat,
            (f2 - 1) as nat,
        ),
        _ => {},
    }
}

/// Gathering tags keeps its result under more fuel.
pub proof fn lemma_mono_gather_tags(
    s: SubsModel,
    tags: Seq<(TagName, Seq<Variable>)>,
    var: Variable,
    f1: nat,
    f2: nat,
)
    requires
        f1 <= f2,
        model_gather_tags(s, tags, var, f1) is Some,
    ensures
        model_gather_tags(s, tags, var, f2) == model_gather_tags(s, tags, var, f1),
    decreases f1,
{
    match s.get(var).content {
        ContentModel::Structure(FlatModel::TagUnion(sub, ext)) => lemma_mono_gather_tags(
            s,
            map_union(tags, sub),
            ext,
            (f1 - 1) as nat,
            (f2 - 1) as nat,
        ),
        ContentModel::Alias(_, _, real_var) => lemma_mono_gather_tags(
            s,
            tags,
            real_var,
            (f1 - 1) as nat,
            (f2 - 1) as nat,
        ),
        _ => {},
    }
}

/// Unifying two variables keeps its result under more fuel.
pub proof fn lemma_mono_pool(s: SubsModel, p: Seq<Variable>, a: Variable, b: Variable, f1: nat, f2: nat)
    requires
        f1 <= f2,
        model_unify_pool(s, p, a, b, f1) is Some,
    ensures
        model_unify_pool(s, p, a, b, f2) == model_unify_pool(s, p, a, b, f1),
    decreases f1, 0int,
{
    if !s.equiv(a, b) {
        lemma_mono_context(s, p, context_of(s, a, b), (f1 - 1) as nat, (f2 - 1) as nat);
    }
}

/// Unifying a context keeps its result under more fuel.
pub proof fn lemma_mono_context(s: SubsModel, p: Seq<Variable>, ctx: ContextModel, f1: nat, f2: nat)
    requires
        f1 <= f2,
        model_unify_context(s, p, ctx, f1) is Some,
    ensures
        model_unify_context(s, p, ctx, f2) == model_unify_context(s, p, ctx, f1),
    decreases f1, 0int,
{
    let other = ctx.second_desc.content;
    match ctx.first_desc.content {
        ContentModel::Structure(ft) => lemma_mono_structure(s, p, ctx, ft, other, (f1 - 1) as nat, (f2 - 1) as nat),
        ContentModel::Alias(sym, args, real_var) => lemma_mono_alias(
            s,
            p,
            ctx,
            sym,
            args,
            real_var,
            (f1 - 1) as nat,
            (f2 - 1) as nat,
        ),
        _ => {},
    }
}

/// Unifying an alias keeps its result under more fuel.
pub proof fn lemma_mono_alias(
    s: SubsModel,
    p: Seq<Variable>,
    ctx: ContextModel,
    sym: Symbol,
    args: Seq<(Lowercase, Variable)>,
    real_var: Variable,
    f1: nat,
    f2: nat,
)
    requires
        f1 <= f2,
        model_unify_alias(s, p, ctx, sym, args, real_var, f1) is Some,
    ensures
        model_unify_alias(s, p, ctx, sym, args, real_var, f2) == model_unify_alias(
            s,
            p,
            ctx,
            sym,
            args,
            real_var,
            f1,
        ),
    decreases f1, 0int,
{
    let g1 = (f1 - 1) as nat;
    let g2 = (f2 - 1) as nat;
    match ctx.second_desc.content {
        ContentModel::RigidVar(_) => lemma_mono_pool(s, p, real_var, ctx.second, g1, g2),
        ContentModel::Alias(other_sym, other_args, other_real) => {
            if sym == other_sym {
                if args.len() == other_args.len() {
                    lemma_mono_args(s, p, args, other_args, 0, Seq::empty(), g1, g2);
                }
            } else {
                lemma_mono_pool(s, p, real_var, other_real, g1, g2);
            }
        },
        ContentModel::Structure(_) => lemma_mono_pool(s, p, real_var, ctx.second, g1, g2),
        _ => {},
    }
}

/// Unifying alias arguments keeps its result under more fuel.
pub proof fn lemma_mono_args(
    s: SubsModel,
    p: Seq<Variable>,
    l: Seq<(Lowercase, Variable)>,
    r: Seq<(Lowercase, Variable)>,
    i: int,
    acc: Seq<Mismatch>,
    f1: nat,
    f2: nat,
)
    requires
        f1 <= f2,
        model_unify_args(s, p, l, r, i, acc, f1) is Some,
    ensures
        model_unify_args(s, p, l, r, i, acc, f2) == model_unify_args(s, p, l, r, i, acc, f1),
    decreases f1, l.len() - i,
{
    if !(i < 0 || i >= l.len() || i >= r.len()) {
        lemma_mono_pool(s, p, l[i].1, r[i].1, (f1 - 1) as nat, (f2 - 1) as nat);
        if let Some((s1, p1, o)) = model_unify_pool(s, p, l[i].1, r[i].1, (f1 - 1) as nat) {
            lemma_mono_args(s1, p1, l, r, i + 1, acc + o, f1, f2);
        }
    }
}

/// Unifying two lists of variables keeps its result under more fuel.
pub proof fn lemma_mono_zip(
    s: SubsModel,
    p: Seq<Variable>,
    l: Seq<Variable>,
    r: Seq<Variable>,
    i: int,
    acc: Seq<Mismatch>,
    f1: nat,
    f2: nat,
)
    requires
        f1 <= f2,
        model_unify_zip(s, p, l, r, i, acc, f1) is Some,
    ensures
        model_unify_zip(s, p, l, r, i, acc, f2) == model_unify_zip(s, p, l, r, i, acc, f1),
    decreases f1, l.len() - i,
{
    if !(i < 0 || i >= l.len() || i >= r.len()) {
        lemma_mono_pool(s, p, l[i], r[i], (f1 - 1) as nat, (f2 - 1) as nat);
        if let Some((s1, p1, o)) = model_unify_pool(s, p, l[i], r[i], (f1 - 1) as nat) {
            lemma_mono_zip(s1, p1, l, r, i + 1, acc + o, f1, f2);
        }
    }
}

/// Unifying a variable with each of a list keeps its result under more fuel.
pub proof fn lemma_mono_each(
    s: SubsModel,
    p: Seq<Variable>,
    v: Variable,
    ms: Seq<Variable>,
    i: int,
    acc: Seq<Mismatch>,
    f1: nat,
    f2: nat,
)
    requires
        f1 <= f2,
        model_unify_each(s, p, v, ms, i, acc, f1) is Some,
    ensures
        model_unify_each(s, p, v, ms, i, acc, f2) == model_unify_each(s, p, v, ms, i, acc, f1),
    decreases f1, ms.len() - i,
{
    if !(i < 0 || i >= ms.len()) {
        lemma_mono_pool(s, p, v, ms[i], (f1 - 1) as nat, (f2 - 1) as nat);
        if let Some((s1, p1, o)) = model_unify_pool(s, p, v, ms[i], (f1 - 1) as nat) {
            lemma_mono_each(s1, p1, v, ms, i + 1, acc + o, f1, f2);
        }
    }
}

/// Unifying a structure keeps its result under more fuel.
pub proof fn lemma_mono_structure(
    s: SubsModel,
    p: Seq<Variable>,
    ctx: ContextModel,
    ft: FlatModel,
    other: ContentModel,
    f1: nat,
    f2: nat,
)
    requires
        f1 <= f2,
        model_unify_structure(s, p, ctx, ft, other, f1) is Some,
    ensures
        model_unify_structure(s, p, ctx, ft, other, f2) == model_unify_structure(s, p, ctx, ft, other, f1),
    decreases f1, 0int,
{
    let g1 = (f1 - 1) as nat;
    let g2 = (f2 - 1) as nat;
    match other {
        ContentModel::Structure(other_ft) => lemma_mono_flat(s, p, ctx, ft, other_ft, g1, g2),
        ContentModel::Alias(_, _, real_var) => lemma_mono_pool(s, p, ctx.first, real_var, g1, g2),
        _ => {},
    }
}

/// Unifying two structures keeps its result under more fuel.
pub proof fn lemma_mono_flat(
    s: SubsModel,
    p: Seq<Variable>,
    ctx: ContextModel,
    left: FlatModel,
    right: FlatModel,
    f1: nat,
    f2: nat,
)
    requires
        f1 <= f2,
        model_unify_flat_type(s, p, ctx, left, right, f1) is Some,
    ensures
        model_unify_flat_type(s, p, ctx, left, right, f2) == model_unify_flat_type(s, p, ctx, left, right, f1),
    decreases f1, 0int,
{
    let g1 = (f1 - 1) as nat;
    let g2 = (f2 - 1) as nat;
    match left {
        FlatModel::EmptyRecord => {
            if let FlatModel::Record(fields, ext) = right {
                if fields.len() == 0 {
                    lemma_mono_pool(s, p, ctx.first, ext, g1, g2);
                }
            }
        },
        FlatModel::Record(fields1, ext1) => match right {
            FlatModel::EmptyRecord => {
                if fields1.len() == 0 {
                    lemma_mono_pool(s, p, ext1, ctx.second, g1, g2);
                }
            },
            FlatModel::Record(fields2, ext2) => {
                lemma_mono_gather_fields(s, fields1, ext1, g1, g2);
                lemma_mono_gather_fields(s, fields2, ext2, g1, g2);
                if let Some((gf1, e1)) = model_gather_fields(s, fields1, ext1, g1) {
                    if let Some((gf2, e2)) = model_gather_fields(s, fields2, ext2, g1) {
                        lemma_mono_record(s, p, ctx, gf1, e1, gf2, e2, g1, g2);
                    }
                }
            },
            _ => {},
        },
        FlatModel::EmptyTagUnion => {
            if let FlatModel::TagUnion(tags, ext) = right {
                if tags.len() == 0 {
                    lemma_mono_pool(s, p, ctx.first, ext, g1, g2);
                }
            }
        },
        FlatModel::TagUnion(tags1, ext1) => match right {
            FlatModel::EmptyTagUnion => {
                if tags1.len() == 0 {
                    lemma_mono_pool(s, p, ext1, ctx.second, g1, g2);
                }
            },
            FlatModel::TagUnion(tags2, ext2) => lemma_mono_gathered(
                s,
                p,
                ctx,
                tags1,
                ext1,
                tags2,
                ext2,
                None,
                None,
                g1,
                g2,
            ),
            FlatModel::RecursiveTagUnion(rec2, tags2, ext2) => lemma_mono_gathered(
                s,
                p,
                ctx,
                tags1,
                ext1,
                tags2,
                ext2,
                None,
                Some(rec2),
                g1,
                g2,
            ),
            _ => {},
        },
        FlatModel::RecursiveTagUnion(rec1, tags1, ext1) => {
            if let FlatModel::RecursiveTagUnion(rec2, tags2, ext2) = right {
                lemma_mono_gathered(s, p, ctx, tags1, ext1, tags2, ext2, Some(rec1), Some(rec2), g1, g2);
            }
        },
        FlatModel::Boolean(b1) => {
            if let FlatModel::Boolean(b2) = right {
                lemma_mono_bool(s, p, ctx, b1, b2, g1, g2);
            }
        },
        FlatModel::Apply(l_symbol, l_args) => {
            if let FlatModel::Apply(r_symbol, r_args) = right {
                if l_symbol == r_symbol {
                    lemma_mono_zip(s, p, l_args, r_args, 0, Seq::empty(), g1, g2);
                }
            }
        },
        FlatModel::Func(l_args, l_ret) => {
            if let FlatModel::Func(r_args, r_ret) = right {
                if l_args.len() == r_args.len() {
                    lemma_mono_zip(s, p, l_args, r_args, 0, Seq::empty(), g1, g2);
                    if let Some((s1, p1, _)) = model_unify_zip(s, p, l_args, r_args, 0, Seq::empty(), g1) {
                        lemma_mono_pool(s1, p1, l_ret, r_ret, g1, g2);
                    }
                }
            }
        },
        FlatModel::Erroneous(_) => {},
    }
}

/// Gathering and unifying two tag unions keeps its result under more fuel.
pub proof fn lemma_mono_gathered(
    s: SubsModel,
    p: Seq<Variable>,
    ctx: ContextModel,
    tags1: Seq<(TagName, Seq<Variable>)>,
    ext1: Variable,
    tags2: Seq<(TagName, Seq<Variable>)>,
    ext2: Variable,
    rec1: Option<Variable>,
    rec2: Option<Variable>,
    f1: nat,
    f2: nat,
)
    requires
        f1 <= f2,
        model_unify_gathered_tags(s, p, ctx, tags1, ext1, tags2, ext2, rec1, rec2, f1) is Some,
    ensures
        model_unify_gathered_tags(s, p, ctx, tags1, ext1, tags2, ext2, rec1, rec2, f2)
            == model_unify_gathered_tags(s, p, ctx, tags1, ext1, tags2, ext2, rec1, rec2, f1),
    decreases f1, 0int,
{
    let g1 = (f1 - 1) as nat;
    let g2 = (f2 - 1) as nat;
    lemma_mono_gather_tags(s, tags1, ext1, g1, g2);
    lemma_mono_gather_tags(s, tags2, ext2, g1, g2);
    if let Some((t1, e1)) = model_gather_tags(s, tags1, ext1, g1) {
        if let Some((t2, e2)) = model_gather_tags(s, tags2, ext2, g1) {
            lemma_mono_tag_union(s, p, ctx, t1, e1, t2, e2, rec1, rec2, g1, g2);
        }
    }
}

/// Unifying two uniqueness attributes keeps its result under more fuel.
pub proof fn lemma_mono_bool(
    s: SubsModel,
    p: Seq<Variable>,
    ctx: ContextModel,
    b1: BoolModel,
    b2: BoolModel,
    f1: nat,
    f2: nat,
)
    requires
        f1 <= f2,
        model_unify_bool(s, p, ctx, b1, b2, f1) is Some,
    ensures
        model_unify_bool(s, p, ctx, b1, b2, f2) == model_unify_bool(s, p, ctx, b1, b2, f1),
    decreases f1, 0int,
{
    let g1 = (f1 - 1) as nat;
    let g2 = (f2 - 1) as nat;
    match (b1, b2) {
        (BoolModel::Shared, BoolModel::Container(cvar, mvars)) => {
            lemma_mono_pool(s, p, ctx.first, cvar, g1, g2);
            if let Some((s1, p1, o1)) = model_unify_pool(s, p, ctx.first, cvar, g1) {
                lemma_mono_each(s1, p1, ctx.first, mvars, 0, o1, g1, g2);
            }
        },
        (BoolModel::Container(cvar, mvars), BoolModel::Shared) => {
            lemma_mono_pool(s, p, ctx.second, cvar, g1, g2);
            if let Some((s1, p1, o1)) = model_unify_pool(s, p, ctx.second, cvar, g1) {
                lemma_mono_each(s1, p1, ctx.second, mvars, 0, o1, g1, g2);
            }
        },
        (BoolModel::Container(cvar1, _), BoolModel::Container(cvar2, _)) => {
            lemma_mono_pool(s, p, cvar1, cvar2, g1, g2);
        },
        _ => {},
    }
}

/// Unifying two gathered records keeps its result under more fuel.
pub proof fn lemma_mono_record(
    s: SubsModel,
    p: Seq<Variable>,
    ctx: ContextModel,
    fields1: Seq<(Lowercase, Variable)>,
    ext1: Variable,
    fields2: Seq<(Lowercase, Variable)>,
    ext2: Variable,
    f1: nat,
    f2: nat,
)
    requires
        f1 <= f2,
        model_unify_record(s, p, ctx, fields1, ext1, fields2, ext2, f1) is Some,
    ensures
        model_unify_record(s, p, ctx, fields1, ext1, fields2, ext2, f2) == model_unify_record(
            s,
            p,
            ctx,
            fields1,
            ext1,
            fields2,
            ext2,
            f1,
        ),
    decreases f1, 0int,
{
    let g1 = (f1 - 1) as nat;
    let g2 = (f2 - 1) as nat;
    let shared_fields = shared(fields1, fields2);
    let unique1 = complement(fields1, fields2);
    let unique2 = complement(fields2, fields1);
    if unique1.len() == 0 {
        if unique2.len() == 0 {
            lemma_mono_pool(s, p, ext1, ext2, g1, g2);
            if let Some((s1, p1, o1)) = model_unify_pool(s, p, ext1, ext2, g1) {
                if o1.len() == 0 {
                    lemma_mono_shared_fields(s1, p1, ctx, shared_fields, Seq::empty(), ext1, g1, g2);
                }
            }
        } else {
            let (s1, p1, sub) = model_fresh(s, p, ctx, ContentModel::Structure(FlatModel::Record(unique2, ext2)));
            lemma_mono_pool(s1, p1, ext1, sub, g1, g2);
            if let Some((s2, p2, o2)) = model_unify_pool(s1, p1, ext1, sub, g1) {
                if o2.len() == 0 {
                    lemma_mono_shared_fields(s2, p2, ctx, shared_fields, Seq::empty(), sub, g1, g2);
                }
            }
        }
    } else if unique2.len() == 0 {
        let (s1, p1, sub) = model_fresh(s, p, ctx, ContentModel::Structure(FlatModel::Record(unique1, ext1)));
        lemma_mono_pool(s1, p1, sub, ext2, g1, g2);
        if let Some((s2, p2, o2)) = model_unify_pool(s1, p1, sub, ext2, g1) {
            if o2.len() == 0 {
                lemma_mono_shared_fields(s2, p2, ctx, shared_fields, Seq::empty(), sub, g1, g2);
            }
        }
    } else {
        let other = map_union(unique1, unique2);
        let (s1, p1, ext) = model_fresh(s, p, ctx, ContentModel::FlexVar(None));
        let (s2, p2, sub1) = model_fresh(s1, p1, ctx, ContentModel::Structure(FlatModel::Record(unique1, ext)));
        let (s3, p3, sub2) = model_fresh(s2, p2, ctx, ContentModel::Structure(FlatModel::Record(unique2, ext)));
        lemma_mono_pool(s3, p3, ext1, sub2, g1, g2);
        if let Some((s4, p4, o4)) = model_unify_pool(s3, p3, ext1, sub2, g1) {
            if o4.len() == 0 {
                lemma_mono_pool(s4, p4, sub1, ext2, g1, g2);
                if let Some((s5, p5, o5)) = model_unify_pool(s4, p4, sub1, ext2, g1) {
                    if o5.len() == 0 {
                        lemma_mono_shared_fields(s5, p5, ctx, shared_fields, other, ext, g1, g2);
                    }
                }
            }
        }
    }
}

/// Unifying the shared fields of two records keeps its result under more fuel.
pub proof fn lemma_mono_shared_fields(
    s: SubsModel,
    p: Seq<Variable>,
    ctx: ContextModel,
    shared_fields: Seq<(Lowercase, (Variable, Variable))>,
    other: Seq<(Lowercase, Variable)>,
    ext: Variable,
    f1: nat,
    f2: nat,
)
    requires
        f1 <= f2,
        model_unify_shared_fields(s, p, ctx, shared_fields, other, ext, f1) is Some,
    ensures
        model_unify_shared_fields(s, p, ctx, shared_fields, other, ext, f2) == model_unify_shared_fields(
            s,
            p,
            ctx,
            shared_fields,
            other,
            ext,
            f1,
        ),
    decreases f1, 0int,
{
    let g1 = (f1 - 1) as nat;
    let g2 = (f2 - 1) as nat;
    lemma_mono_match_fields(s, p, shared_fields, 0, Seq::empty(), g1, g2);
    if let Some((s1, p1, matching)) = model_match_fields(s, p, shared_fields, 0, Seq::empty(), g1) {
        if shared_fields.len() == matching.len() {
            lemma_mono_chase_record(s1, ext, map_union(matching, other), g1, g2);
        }
    }
}

/// Unifying shared fields one by one keeps its result under more fuel.
pub proof fn lemma_mono_match_fields(
    s: SubsModel,
    p: Seq<Variable>,
    shared_fields: Seq<(Lowercase, (Variable, Variable))>,
    i: int,
    acc: Seq<(Lowercase, Variable)>,
    f1: nat,
    f2: nat,
)
    requires
        f1 <= f2,
        model_match_fields(s, p, shared_fields, i, acc, f1) is Some,
    ensures
        model_match_fields(s, p, shared_fields, i, acc, f2) == model_match_fields(s, p, shared_fields, i, acc, f1),
    decreases f1, shared_fields.len() - i,
{
    if !(i < 0 || i >= shared_fields.len()) {
        let (name, (actual, expected)) = shared_fields[i];
        lemma_mono_pool(s, p, actual, expected, (f1 - 1) as nat, (f2 - 1) as nat);
        if let Some((s1, p1, o)) = model_unify_pool(s, p, actual, expected, (f1 - 1) as nat) {
            let next = if o.len() == 0 {
                crate::maps::map_insert(acc, name, actual)
            } else {
                acc
            };
            lemma_mono_match_fields(s1, p1, shared_fields, i + 1, next, f1, f2);
        }
    }
}

/// Unifying two gathered tag unions keeps its result under more fuel.
pub proof fn lemma_mono_tag_union(
    s: SubsModel,
    p: Seq<Variable>,
    ctx: ContextModel,
    tags1: Seq<(TagName, Seq<Variable>)>,
    ext1: Variable,
    tags2: Seq<(TagName, Seq<Variable>)>,
    ext2: Variable,
    rec1: Option<Variable>,
    rec2: Option<Variable>,
    f1: nat,
    f2: nat,
)
    requires
        f1 <= f2,
        model_unify_tag_union(s, p, ctx, tags1, ext1, tags2, ext2, rec1, rec2, f1) is Some,
    ensures
        model_unify_tag_union(s, p, ctx, tags1, ext1, tags2, ext2, rec1, rec2, f2)
            == model_unify_tag_union(s, p, ctx, tags1, ext1, tags2, ext2, rec1, rec2, f1),
    decreases f1, 0int,
{
    let g1 = (f1 - 1) as nat;
    let g2 = (f2 - 1) as nat;
    match (rec1, rec2) {
        (None, None) => lemma_mono_tag_exts(s, p, ctx, tags1, ext1, tags2, ext2, None, g1, g2),
        (Some(v), None) => lemma_mono_tag_exts(s, p, ctx, tags1, ext1, tags2, ext2, Some(v), g1, g2),
        (None, Some(v)) => lemma_mono_tag_exts(s, p, ctx, tags1, ext1, tags2, ext2, Some(v), g1, g2),
        (Some(v1), Some(v2)) => {
            lemma_mono_pool(s, p, v1, v2, g1, g2);
            if let Some((s1, p1, _)) = model_unify_pool(s, p, v1, v2, g1) {
                lemma_mono_tag_exts(s1, p1, ctx, tags1, ext1, tags2, ext2, Some(v1), g1, g2);
            }
        },
    }
}

/// Settling the extensions of two tag unions keeps its result under more fuel.
pub proof fn lemma_mono_tag_exts(
    s: SubsModel,
    p: Seq<Variable>,
    ctx: ContextModel,
    tags1: Seq<(TagName, Seq<Variable>)>,
    ext1: Variable,
    tags2: Seq<(TagName, Seq<Variable>)>,
    ext2: Variable,
    rv: Option<Variable>,
    f1: nat,
    f2: nat,
)
    requires
        f1 <= f2,
        model_unify_tag_exts(s, p, ctx, tags1, ext1, tags2, ext2, rv, f1) is Some,
    ensures
        model_unify_tag_exts(s, p, ctx, tags1, ext1, tags2, ext2, rv, f2) == model_unify_tag_exts(
            s,
            p,
            ctx,
            tags1,
            ext1,
            tags2,
            ext2,
            rv,
            f1,
        ),
    decreases f1, 0int,
{
    let g1 = (f1 - 1) as nat;
    let g2 = (f2 - 1) as nat;
    let shared_tags = shared(tags1, tags2);
    let unique1 = complement(tags1, tags2);
    let unique2 = complement(tags2, tags1);
    if unique1.len() == 0 {
        if unique2.len() == 0 {
            lemma_mono_pool(s, p, ext1, ext2, g1, g2);
            if let Some((s1, p1, o1)) = model_unify_pool(s, p, ext1, ext2, g1) {
                if o1.len() == 0 {
                    lemma_mono_shared_tags(s1, p1, ctx, shared_tags, Seq::empty(), ext1, rv, g1, g2);
                }
            }
        } else {
            let (s1, p1, sub) = model_fresh(s, p, ctx, ContentModel::Structure(FlatModel::TagUnion(unique2, ext2)));
            lemma_mono_pool(s1, p1, ext1, sub, g1, g2);
            if let Some((s2, p2, o2)) = model_unify_pool(s1, p1, ext1, sub, g1) {
                if o2.len() == 0 {
                    lemma_mono_shared_tags(s2, p2, ctx, shared_tags, Seq::empty(), sub, rv, g1, g2);
                }
            }
        }
    } else if unique2.len() == 0 {
        let (s1, p1, sub) = model_fresh(s, p, ctx, ContentModel::Structure(FlatModel::TagUnion(unique1, ext1)));
        lemma_mono_pool(s1, p1, sub, ext2, g1, g2);
        if let Some((s2, p2, o2)) = model_unify_pool(s1, p1, sub, ext2, g1) {
            if o2.len() == 0 {
                lemma_mono_shared_tags(s2, p2, ctx, shared_tags, Seq::empty(), sub, rv, g1, g2);
            }
        }
    } else {
        lemma_mono_split_tags(s, p, ctx, shared_tags, unique1, ext1, unique2, ext2, rv, g1, g2);
    }
}

/// Unifying two tag unions that each have tags of their own keeps its
/// result under more fuel.
pub proof fn lemma_mono_split_tags(
    s: SubsModel,
    p: Seq<Variable>,
    ctx: ContextModel,
    shared_tags: Seq<(TagName, (Seq<Variable>, Seq<Variable>))>,
    unique1: Seq<(TagName, Seq<Variable>)>,
    ext1: Variable,
    unique2: Seq<(TagName, Seq<Variable>)>,
    ext2: Variable,
    rv: Option<Variable>,
    f1: nat,
    f2: nat,
)
    requires
        f1 <= f2,
        model_unify_split_tags(s, p, ctx, shared_tags, unique1, ext1, unique2, ext2, rv, f1) is Some,
    ensures
        model_unify_split_tags(s, p, ctx, shared_tags, unique1, ext1, unique2, ext2, rv, f2)
            == model_unify_split_tags(s, p, ctx, shared_tags, unique1, ext1, unique2, ext2, rv, f1),
    decreases f1, 0int,
{
    let g1 = (f1 - 1) as nat;
    let g2 = (f2 - 1) as nat;
    let other = map_union(unique1, unique2);
    let (s1, p1, ext) = model_fresh(s, p, ctx, ContentModel::FlexVar(None));
    let (s2, p2, sub1) = model_fresh(s1, p1, ctx, ContentModel::Structure(FlatModel::TagUnion(unique1, ext)));
    let (s3, p3, sub2) = model_fresh(s2, p2, ctx, ContentModel::Structure(FlatModel::TagUnion(unique2, ext)));
    lemma_mono_pool(s3, p3, ext1, sub2, g1, g2);
    if let Some((s4, p4, o4)) = model_unify_pool(s3, p3, ext1, sub2, g1) {
        if o4.len() == 0 {
            lemma_mono_pool(s4, p4, sub1, ext2, g1, g2);
            if let Some((s5, p5, o5)) = model_unify_pool(s4, p4, sub1, ext2, g1) {
                if o5.len() == 0 {
                    lemma_mono_shared_tags(s5, p5, ctx, shared_tags, other, ext, rv, g1, g2);
                }
            }
        }
    }
}

/// Unifying the shared tags of two tag unions keeps its result under more fuel.
pub proof fn lemma_mono_shared_tags(
    s: SubsModel,
    p: Seq<Variable>,
    ctx: ContextModel,
    shared_tags: Seq<(TagName, (Seq<Variable>, Seq<Variable>))>,
    other: Seq<(TagName, Seq<Variable>)>,
    ext: Variable,
    rv: Option<Variable>,
    f1: nat,
    f2: nat,
)
    requires
        f1 <= f2,
        model_unify_shared_tags(s, p, ctx, shared_tags, other, ext, rv, f1) is Some,
    ensures
        model_unify_shared_tags(s, p, ctx, shared_tags, other, ext, rv, f2) == model_unify_shared_tags(
            s,
            p,
            ctx,
            shared_tags,
            other,
            ext,
            rv,
            f1,
        ),
    decreases f1, 0int,
{
    let g1 = (f1 - 1) as nat;
    let g2 = (f2 - 1) as nat;
    lemma_mono_match_tags(s, p, shared_tags, 0, Seq::empty(), g1, g2);
    if let Some((s1, p1, matching)) = model_match_tags(s, p, shared_tags, 0, Seq::empty(), g1) {
        if shared_tags.len() == matching.len() {
            lemma_mono_chase_tags(s1, ext, Seq::empty(), g1, g2);
        }
    }
}

/// Unifying the payloads of shared tags one by one keeps its result under
/// more fuel.
pub proof fn lemma_mono_match_tags(
    s: SubsModel,
    p: Seq<Variable>,
    shared_tags: Seq<(TagName, (Seq<Variable>, Seq<Variable>))>,
    i: int,
    acc: Seq<(TagName, Seq<Variable>)>,
    f1: nat,
    f2: nat,
)
    requires
        f1 <= f2,
        model_match_tags(s, p, shared_tags, i, acc, f1) is Some,
    ensures
        model_match_tags(s, p, shared_tags, i, acc, f2) == model_match_tags(s, p, shared_tags, i, acc, f1),
    decreases f1, shared_tags.len() - i,
{
    if !(i < 0 || i >= shared_tags.len()) {
        let (name, (actual, expected)) = shared_tags[i];
        lemma_mono_match_vars(s, p, actual, expected, 0, Seq::empty(), (f1 - 1) as nat, (f2 - 1) as nat);
        if let Some((s1, p1, matched)) = model_match_vars(
            s,
            p,
            actual,
            expected,
            0,
            Seq::empty(),
            (f1 - 1) as nat,
        ) {
            let next = if actual.len() == expected.len() && actual.len() == matched.len() {
                crate::maps::map_insert(acc, name, matched)
            } else {
                acc
            };
            lemma_mono_match_tags(s1, p1, shared_tags, i + 1, next, f1, f2);
        }
    }
}

/// Unifying two payloads pairwise keeps its result under more fuel.
pub proof fn lemma_mono_match_vars(
    s: SubsModel,
    p: Seq<Variable>,
    actual: Seq<Variable>,
    expected: Seq<Variable>,
    i: int,
    acc: Seq<Variable>,
    f1: nat,
    f2: nat,
)
    requires
        f1 <= f2,
        model_match_vars(s, p, actual, expected, i, acc, f1) is Some,
    ensures
        model_match_vars(s, p, actual, expected, i, acc, f2) == model_match_vars(s, p, actual, expected, i, acc, f1),
    decreases f1, actual.len() - i,
{
    if !(i < 0 || i >= actual.len() || i >= expected.len()) {
        lemma_mono_pool(s, p, actual[i], expected[i], (f1 - 1) as nat, (f2 - 1) as nat);
        if let Some((s1, p1, o)) = model_unify_pool(s, p, actual[i], expected[i], (f1 - 1) as nat) {
            let next = if o.len() == 0 {
                acc.push(actual[i])
            } else {
                acc
            };
            lemma_mono_match_vars(s1, p1, actual, expected, i + 1, next, f1, f2);
        }
    }
}

/// Unifying has one result: every fuel for which the model has a result
/// gives the result that `unify_pool` is specified by.
pub proof fn lemma_unify_pool_result(s: SubsModel, p: Seq<Variable>, a: Variable, b: Variable, fuel: nat)
    requires
        model_unify_pool(s, p, a, b, fuel) is Some,
    ensures
        unify_pool_returns(s, p, a, b),
        unify_pool_result(s, p, a, b) == model_unify_pool(s, p, a, b, fuel)->Some_0,
{
    let c = pool_fuel(s, p, a, b);
    if fuel <= c {
        lemma_mono_pool(s, p, a, b, fuel, c);
    } else {
        lemma_mono_pool(s, p, a, b, c, fuel);
    }
}

/// Reading back the type of a variable keeps its result under more fuel.
pub proof fn lemma_mono_var_err(s: SubsModel, var: Variable, path: Seq<Variable>, f1: nat, f2: nat)
    requires
        f1 <= f2,
        model_var_err(s, var, path, f1) is Some,
    ensures
        model_var_err(s, var, path, f2) == model_var_err(s, var, path, f1),
    decreases f1, 0int,
{
    let r = s.root(var);
    if !(path.contains(r) || s.get(var).mark == MARK_OCCURS) {
        lemma_mono_content_err(s, s.get(var).content, path.push(r), (f1 - 1) as nat, (f2 - 1) as nat);
    }
}

/// Reading back the type of a content keeps its result under more fuel.
pub proof fn lemma_mono_content_err(s: SubsModel, c: ContentModel, path: Seq<Variable>, f1: nat, f2: nat)
    requires
        f1 <= f2,
        model_content_err(s, c, path, f1) is Some,
    ensures
        model_content_err(s, c, path, f2) == model_content_err(s, c, path, f1),
    decreases f1, 0int,
{
    let g1 = (f1 - 1) as nat;
    let g2 = (f2 - 1) as nat;
    match c {
        ContentModel::Alias(_, args, real_var) => {
            lemma_mono_labelled_errs(s, args, path, 0, Seq::empty(), Seq::empty(), g1, g2);
            lemma_mono_var_err(s, real_var, path, g1, g2);
        },
        ContentModel::Structure(ft) => lemma_mono_flat_err(s, ft, path, g1, g2),
        _ => {},
    }
}

/// Reading back the type of a structure keeps its result under more fuel.
pub proof fn lemma_mono_flat_err(s: SubsModel, ft: FlatModel, path: Seq<Variable>, f1: nat, f2: nat)
    requires
        f1 <= f2,
        model_flat_err(s, ft, path, f1) is Some,
    ensures
        model_flat_err(s, ft, path, f2) == model_flat_err(s, ft, path, f1),
    decreases f1, 0int,
{
    let g1 = (f1 - 1) as nat;
    let g2 = (f2 - 1) as nat;
    match ft {
        FlatModel::Apply(_, args) => lemma_mono_errs(s, args, path, 0, Seq::empty(), Seq::empty(), g1, g2),
        FlatModel::Func(args, ret) => {
            lemma_mono_errs(s, args, path, 0, Seq::empty(), Seq::empty(), g1, g2);
            lemma_mono_var_err(s, ret, path, g1, g2);
        },
        FlatModel::Record(fields, ext) => {
            lemma_mono_field_errs(s, fields, path, 0, Seq::empty(), Seq::empty(), g1, g2);
            lemma_mono_var_err(s, ext, path, g1, g2);
        },
        FlatModel::TagUnion(tags, ext) => {
            lemma_mono_tag_errs(s, tags, path, 0, Seq::empty(), Seq::empty(), g1, g2);
            lemma_mono_var_err(s, ext, path, g1, g2);
        },
        FlatModel::RecursiveTagUnion(rec, tags, ext) => {
            lemma_mono_var_err(s, rec, path, g1, g2);
            lemma_mono_tag_errs(s, tags, path, 0, Seq::empty(), Seq::empty(), g1, g2);
            lemma_mono_var_err(s, ext, path, g1, g2);
        },
        _ => {},
    }
}

/// Reading back the types of a list of variables keeps its result under
/// more fuel.
pub proof fn lemma_mono_errs(
    s: SubsModel,
    vs: Seq<Variable>,
    path: Seq<Variable>,
    i: int,
    acc: Seq<ErrorTypeModel>,
    probs: Seq<Problem>,
    f1: nat,
    f2: nat,
)
    requires
        f1 <= f2,
        model_errs(s, vs, path, i, acc, probs, f1) is Some,
    ensures
        model_errs(s, vs, path, i, acc, probs, f2) == model_errs(s, vs, path, i, acc, probs, f1),
    decreases f1, vs.len() - i,
{
    if !(i < 0 || i >= vs.len()) {
        lemma_mono_var_err(s, vs[i], path, (f1 - 1) as nat, (f2 - 1) as nat);
        if let Some((e, q)) = model_var_err(s, vs[i], path, (f1 - 1) as nat) {
            lemma_mono_errs(s, vs, path, i + 1, acc.push(e), probs + q, f1, f2);
        }
    }
}

/// Reading back the types of labelled variables keeps its result under
/// more fuel.
pub proof fn lemma_mono_labelled_errs(
    s: SubsModel,
    args: Seq<(Lowercase, Variable)>,
    path: Seq<Variable>,
    i: int,
    acc: Seq<(Lowercase, ErrorTypeModel)>,
    probs: Seq<Problem>,
    f1: nat,
    f2: nat,
)
    requires
        f1 <= f2,
        model_labelled_errs(s, args, path, i, acc, probs, f1) is Some,
    ensures
        model_labelled_errs(s, args, path, i, acc, probs, f2) == model_labelled_errs(s, args, path, i, acc, probs, f1),
    decreases f1, args.len() - i,
{
    if !(i < 0 || i >= args.len()) {
        lemma_mono_var_err(s, args[i].1, path, (f1 - 1) as nat, (f2 - 1) as nat);
        if let Some((e, q)) = model_var_err(s, args[i].1, path, (f1 - 1) as nat) {
            lemma_mono_labelled_errs(s, args, path, i + 1, acc.push((args[i].0, e)), probs + q, f1, f2);
        }
    }
}

/// Reading back the types of record fields keeps its result under more fuel.
pub proof fn lemma_mono_field_errs(
    s: SubsModel,
    fields: Seq<(Lowercase, Variable)>,
    path: Seq<Variable>,
    i: int,
    acc: Seq<(Lowercase, ErrorTypeModel)>,
    probs: Seq<Problem>,
    f1: nat,
    f2: nat,
)
    requires
        f1 <= f2,
        model_field_errs(s, fields, path, i, acc, probs, f1) is Some,
    ensures
        model_field_errs(s, fields, path, i, acc, probs, f2) == model_field_errs(s, fields, path, i, acc, probs, f1),
    decreases f1, fields.len() - i,
{
    if !(i < 0 || i >= fields.len()) {
        lemma_mono_var_err(s, fields[i].1, path, (f1 - 1) as nat, (f2 - 1) as nat);
        if let Some((e, q)) = model_var_err(s, fields[i].1, path, (f1 - 1) as nat) {
            lemma_mono_field_errs(
                s,
                fields,
                path,
                i + 1,
                crate::maps::map_insert(acc, fields[i].0, e),
                probs + q,
                f1,
                f2,
            );
        }
    }
}

/// Reading back the payload types of tags keeps its result under more fuel.
pub proof fn lemma_mono_tag_errs(
    s: SubsModel,
    tags: Seq<(TagName, Seq<Variable>)>,
    path: Seq<Variable>,
    i: int,
    acc: Seq<(TagName, Seq<ErrorTypeModel>)>,
    probs: Seq<Problem>,
    f1: nat,
    f2: nat,
)
    requires
        f1 <= f2,
        model_tag_errs(s, tags, path, i, acc, probs, f1) is Some,
    ensures
        model_tag_errs(s, tags, path, i, acc, probs, f2) == model_tag_errs(s, tags, path, i, acc, probs, f1),
    decreases f1, tags.len() - i,
{
    if !(i < 0 || i >= tags.len()) {
        lemma_mono_errs(s, tags[i].1, path, 0, Seq::empty(), Seq::empty(), (f1 - 1) as nat, (f2 - 1) as nat);
        if let Some((errs, q)) = model_errs(s, tags[i].1, path, 0, Seq::empty(), Seq::empty(), (f1 - 1) as nat) {
            lemma_mono_tag_errs(
                s,
                tags,
                path,
                i + 1,
                crate::maps::map_insert(acc, tags[i].0, errs),
                probs + q,
                f1,
                f2,
            );
        }
    }
}

/// Reading back a type has one result: every fuel for which the model has
/// a result gives the result that `var_to_error_type` is specified by.
pub proof fn lemma_error_type_result(s: SubsModel, var: Variable, fuel: nat)
    requires
        model_var_err(s, var, Seq::empty(), fuel) is Some,
    ensures
        error_type_returns(s, var),
        error_type_result(s, var) == model_var_err(s, var, Seq::empty(), fuel)->Some_0,
{
    let c = error_fuel(s, var);
    if fuel <= c {
        lemma_mono_var_err(s, var, Seq::empty(), fuel, c);
    } else {
        lemma_mono_var_err(s, var, Seq::empty(), c, fuel);
    }
}

} // verus!
