//! The semantics of unification.
//!
//! The `model_*` spec functions give, step by step, what unifying does to a
//! model of the store (`SubsModel`), to the pool of created variables, and
//! which mismatches it reports.  They take a fuel argument: a step that
//! recurses spends one unit, and a step whose fuel runs out has no result.
//! The algorithm need not terminate (on a cyclic type it may recurse
//! forever) and it panics when a structure meets a rigid variable; the
//! inputs on which it returns normally are those on which the model has a
//! result for some fuel.
use vstd::prelude::*;
use crate::types::{
    Variable, Lowercase, TagName, Symbol, Mismatch, BoolModel, FlatModel, ContentModel, DescModel,
    MARK_NONE, EMPTY_RECORD, EMPTY_TAG_UNION, vars_below, lemma_content_below_mono,
};
use crate::maps::{map_union, map_insert, complement, shared};
use crate::subs::{SubsModel, model_gather_fields, model_chase_record, model_chase_tags};

verus! {
/// Model of `Context`.
pub struct ContextModel {
    pub first: Variable,
    pub first_desc: DescModel,
    pub second: Variable,
    pub second_desc: DescModel,
}

/// The result of a step of the model: the store, the pool of created
/// variables and the mismatches, or nothing when the fuel ran out or the
/// algorithm would not return.
pub type Step = Option<(SubsModel, Seq<Variable>, Seq<Mismatch>)>;

/// The single mismatch a failed comparison reports.
pub open spec fn type_mismatch() -> Seq<Mismatch> {
    seq![Mismatch::TypeMismatch]
}

/// The context of unifying `a` with `b` in `s`.
pub open spec fn context_of(s: SubsModel, a: Variable, b: Variable) -> ContextModel {
    ContextModel { first: a, first_desc: s.get(a), second: b, second_desc: s.get(b) }
}

/// The variables of the context and everything their descriptors mention
/// lie below `n`.
pub open spec fn ctx_below(ctx: ContextModel, n: nat) -> bool {
    &&& ctx.first < n
    &&& ctx.second < n
    &&& ctx.first_desc.content.below(n)
    &&& ctx.second_desc.content.below(n)
}

/// The lower of two ranks.
pub open spec fn min_rank(a: u32, b: u32) -> u32 {
    if a <= b {
        a
    } else {
        b
    }
}

/// The descriptor that merging the context's classes gives them.
pub open spec fn merged(ctx: ContextModel, c: ContentModel) -> DescModel {
    DescModel {
        content: c,
        rank: min_rank(ctx.first_desc.rank, ctx.second_desc.rank),
        mark: MARK_NONE,
        copy: None,
    }
}

/// The store after the context's two classes are merged with content `c`.
pub open spec fn model_merge(s: SubsModel, ctx: ContextModel, c: ContentModel) -> SubsModel {
    s.union(ctx.first, ctx.second, merged(ctx, c))
}

/// The store and pool after a fresh variable with content `c`, and the variable.
pub open spec fn model_fresh(s: SubsModel, p: Seq<Variable>, ctx: ContextModel, c: ContentModel) -> (
    SubsModel,
    Seq<Variable>,
    Variable,
) {
    (s.fresh(merged(ctx, c)), p.push(s.len() as Variable), s.len() as Variable)
}

/// Unifying a flexible variable (named `name`) with `other`.
pub open spec fn model_unify_flex(
    s: SubsModel,
    ctx: ContextModel,
    name: Option<Lowercase>,
    other: ContentModel,
) -> SubsModel {
    match other {
        ContentModel::FlexVar(None) => model_merge(s, ctx, ContentModel::FlexVar(name)),
        ContentModel::Error => model_merge(s, ctx, ContentModel::Error),
        _ => model_merge(s, ctx, other),
    }
}

/// Unifying a rigid variable named `name` with `other`.
pub open spec fn model_unify_rigid(s: SubsModel, ctx: ContextModel, name: Lowercase, other: ContentModel) -> (
    SubsModel,
    Seq<Mismatch>,
) {
    match other {
        ContentModel::FlexVar(_) => (model_merge(s, ctx, ContentModel::RigidVar(name)), Seq::empty()),
        ContentModel::Error => (model_merge(s, ctx, ContentModel::Error), Seq::empty()),
        _ => (s, type_mismatch()),
    }
}

/// The roots of `vs`, in order, each once, leaving out those whose class
/// holds the shared attribute.
pub open spec fn collect_roots(s: SubsModel, vs: Seq<Variable>) -> Seq<Variable>
    decreases vs.len(),
{
    if vs.len() == 0 {
        Seq::empty()
    } else {
        let acc = collect_roots(s, vs.drop_last());
        let r = s.root(vs.last());
        if s.is_shared(r) || acc.contains(r) {
            acc
        } else {
            acc.push(r)
        }
    }
}

/// The tags of a tag union gathered along its extensions, and the first
/// extension that is no tag union.
pub open spec fn model_gather_tags(
    s: SubsModel,
    tags: Seq<(TagName, Seq<Variable>)>,
    var: Variable,
    fuel: nat,
) -> Option<(Seq<(TagName, Seq<Variable>)>, Variable)>
    decreases fuel,
{
    if fuel == 0 {
        None
    } else {
        match s.get(var).content {
            ContentModel::Structure(FlatModel::TagUnion(sub, ext)) => model_gather_tags(
                s,
                map_union(tags, sub),
                ext,
                (fuel - 1) as nat,
            ),
            ContentModel::Alias(_, _, real_var) => model_gather_tags(s, tags, real_var, (fuel - 1) as nat),
            _ => Some((tags, var)),
        }
    }
}

/// Unifying `a` with `b`.
pub open spec fn model_unify_pool(s: SubsModel, p: Seq<Variable>, a: Variable, b: Variable, fuel: nat) -> Step
    decreases fuel, 0int,
{
    if fuel == 0 {
        None
    } else if s.equiv(a, b) {
        Some((s, p, Seq::empty()))
    } else {
        model_unify_context(s, p, context_of(s, a, b), (fuel - 1) as nat)
    }
}

/// Unifying the two variables of a context, by the content of the first.
pub open spec fn model_unify_context(s: SubsModel, p: Seq<Variable>, ctx: ContextModel, fuel: nat) -> Step
    decreases fuel, 0int,
{
    if fuel == 0 {
        None
    } else {
        let other = ctx.second_desc.content;
        match ctx.first_desc.content {
            ContentModel::FlexVar(name) => Some((model_unify_flex(s, ctx, name, other), p, Seq::empty())),
            ContentModel::RigidVar(name) => {
                let (s1, o) = model_unify_rigid(s, ctx, name, other);
                Some((s1, p, o))
            },
            ContentModel::Structure(ft) => model_unify_structure(s, p, ctx, ft, other, (fuel - 1) as nat),
            ContentModel::Alias(sym, args, real_var) => model_unify_alias(
                s,
                p,
                ctx,
                sym,
                args,
                real_var,
                (fuel - 1) as nat,
            ),
            ContentModel::Error => Some((model_merge(s, ctx, ContentModel::Error), p, Seq::empty())),
        }
    }
}

/// Unifying an alias (the first variable of the context) with the second.
pub open spec fn model_unify_alias(
    s: SubsModel,
    p: Seq<Variable>,
    ctx: ContextModel,
    sym: Symbol,
    args: Seq<(Lowercase, Variable)>,
    real_var: Variable,
    fuel: nat,
) -> Step
    decreases fuel, 0int,
{
    if fuel == 0 {
        None
    } else {
        let f = (fuel - 1) as nat;
        let other = ctx.second_desc.content;
        match other {
            ContentModel::FlexVar(_) => Some(
                (model_merge(s, ctx, ContentModel::Alias(sym, args, real_var)), p, Seq::empty()),
            ),
            ContentModel::RigidVar(_) => model_unify_pool(s, p, real_var, ctx.second, f),
            ContentModel::Alias(other_sym, other_args, other_real) => {
                if sym == other_sym {
                    if args.len() == other_args.len() {
                        match model_unify_args(s, p, args, other_args, 0, Seq::empty(), f) {
                            None => None,
                            Some((s1, p1, o)) => Some((model_merge(s1, ctx, other), p1, o)),
                        }
                    } else {
                        Some((s, p, type_mismatch()))
                    }
                } else {
                    model_unify_pool(s, p, real_var, other_real, f)
                }
            },
            ContentModel::Structure(_) => model_unify_pool(s, p, real_var, ctx.second, f),
            ContentModel::Error => Some((model_merge(s, ctx, ContentModel::Error), p, Seq::empty())),
        }
    }
}

/// Unifying the variables of the argument lists `l` and `r` pairwise from
/// index `i` on, after the mismatches `acc`.
pub open spec fn model_unify_args(
    s: SubsModel,
    p: Seq<Variable>,
    l: Seq<(Lowercase, Variable)>,
    r: Seq<(Lowercase, Variable)>,
    i: int,
    acc: Seq<Mismatch>,
    fuel: nat,
) -> Step
    decreases fuel, l.len() - i,
{
    if fuel == 0 {
        None
    } else if i < 0 || i >= l.len() || i >= r.len() {
        Some((s, p, acc))
    } else {
        match model_unify_pool(s, p, l[i].1, r[i].1, (fuel - 1) as nat) {
            None => None,
            Some((s1, p1, o)) => model_unify_args(s1, p1, l, r, i + 1, acc + o, fuel),
        }
    }
}

/// Unifying the variables of `l` and `r` pairwise from index `i` on, after
/// the mismatches `acc`.
pub open spec fn model_unify_zip(
    s: SubsModel,
    p: Seq<Variable>,
    l: Seq<Variable>,
    r: Seq<Variable>,
    i: int,
    acc: Seq<Mismatch>,
    fuel: nat,
) -> Step
    decreases fuel, l.len() - i,
{
    if fuel == 0 {
        None
    } else if i < 0 || i >= l.len() || i >= r.len() {
        Some((s, p, acc))
    } else {
        match model_unify_pool(s, p, l[i], r[i], (fuel - 1) as nat) {
            None => None,
            Some((s1, p1, o)) => model_unify_zip(s1, p1, l, r, i + 1, acc + o, fuel),
        }
    }
}

/// Unifying `v` with each of `ms` from index `i` on, after the mismatches `acc`.
pub open spec fn model_unify_each(
    s: SubsModel,
    p: Seq<Variable>,
    v: Variable,
    ms: Seq<Variable>,
    i: int,
    acc: Seq<Mismatch>,
    fuel: nat,
) -> Step
    decreases fuel, ms.len() - i,
{
    if fuel == 0 {
        None
    } else if i < 0 || i >= ms.len() {
        Some((s, p, acc))
    } else {
        match model_unify_pool(s, p, v, ms[i], (fuel - 1) as nat) {
            None => None,
            Some((s1, p1, o)) => model_unify_each(s1, p1, v, ms, i + 1, acc + o, fuel),
        }
    }
}

/// Unifying a structure (the first variable of the context) with `other`.
pub open spec fn model_unify_structure(
    s: SubsModel,
    p: Seq<Variable>,
    ctx: ContextModel,
    ft: FlatModel,
    other: ContentModel,
    fuel: nat,
) -> Step
    decreases fuel, 0int,
{
    if fuel == 0 {
        None
    } else {
        let f = (fuel - 1) as nat;
        match other {
            ContentModel::FlexVar(_) => Some(
                (model_merge(s, ctx, ContentModel::Structure(ft)), p, Seq::empty()),
            ),
            // a structure never unifies with a rigid variable: the algorithm panics
            ContentModel::RigidVar(_) => None,
            ContentModel::Structure(other_ft) => model_unify_flat_type(s, p, ctx, ft, other_ft, f),
            ContentModel::Alias(_, _, real_var) => model_unify_pool(s, p, ctx.first, real_var, f),
            ContentModel::Error => Some((model_merge(s, ctx, ContentModel::Error), p, Seq::empty())),
        }
    }
}

/// Unifying two structures.
pub open spec fn model_unify_flat_type(
    s: SubsModel,
    p: Seq<Variable>,
    ctx: ContextModel,
    left: FlatModel,
    right: FlatModel,
    fuel: nat,
) -> Step
    decreases fuel, 0int,
{
    if fuel == 0 {
        None
    } else {
        let f = (fuel - 1) as nat;
        let mismatched: Step = Some((s, p, type_mismatch()));
        match left {
            FlatModel::EmptyRecord => match right {
                FlatModel::EmptyRecord => Some(
                    (model_merge(s, ctx, ContentModel::Structure(left)), p, Seq::empty()),
                ),
                FlatModel::Record(fields, ext) => if fields.len() == 0 {
                    model_unify_pool(s, p, ctx.first, ext, f)
                } else {
                    mismatched
                },
                _ => mismatched,
            },
            FlatModel::Record(fields1, ext1) => match right {
                FlatModel::EmptyRecord => if fields1.len() == 0 {
                    model_unify_pool(s, p, ext1, ctx.second, f)
                } else {
                    mismatched
                },
                FlatModel::Record(fields2, ext2) => match model_gather_fields(s, fields1, ext1, f) {
                    None => None,
                    Some((g1, e1)) => match model_gather_fields(s, fields2, ext2, f) {
                        None => None,
                        Some((g2, e2)) => model_unify_record(s, p, ctx, g1, e1, g2, e2, f),
                    },
                },
                _ => mismatched,
            },
            FlatModel::EmptyTagUnion => match right {
                FlatModel::EmptyTagUnion => Some(
                    (model_merge(s, ctx, ContentModel::Structure(left)), p, Seq::empty()),
                ),
                FlatModel::TagUnion(tags, ext) => if tags.len() == 0 {
                    model_unify_pool(s, p, ctx.first, ext, f)
                } else {
                    mismatched
                },
                _ => mismatched,
            },
            FlatModel::TagUnion(tags1, ext1) => match right {
                FlatModel::EmptyTagUnion => if tags1.len() == 0 {
                    model_unify_pool(s, p, ext1, ctx.second, f)
                } else {
                    mismatched
                },
                FlatModel::TagUnion(tags2, ext2) => model_unify_gathered_tags(
                    s,
                    p,
                    ctx,
                    tags1,
                    ext1,
                    tags2,
                    ext2,
                    None,
                    None,
                    f,
                ),
                FlatModel::RecursiveTagUnion(rec2, tags2, ext2) => model_unify_gathered_tags(
                    s,
                    p,
                    ctx,
                    tags1,
                    ext1,
                    tags2,
                    ext2,
                    None,
                    Some(rec2),
                    f,
                ),
                _ => mismatched,
            },
            FlatModel::RecursiveTagUnion(rec1, tags1, ext1) => match right {
                FlatModel::RecursiveTagUnion(rec2, tags2, ext2) => model_unify_gathered_tags(
                    s,
                    p,
                    ctx,
                    tags1,
                    ext1,
                    tags2,
                    ext2,
                    Some(rec1),
                    Some(rec2),
                    f,
                ),
                _ => mismatched,
            },
            FlatModel::Boolean(b1) => match right {
                FlatModel::Boolean(b2) => model_unify_bool(s, p, ctx, b1, b2, f),
                _ => mismatched,
            },
            FlatModel::Apply(l_symbol, l_args) => match right {
                FlatModel::Apply(r_symbol, r_args) => if l_symbol == r_symbol {
                    match model_unify_zip(s, p, l_args, r_args, 0, Seq::empty(), f) {
                        None => None,
                        Some((s1, p1, o)) => if o.len() == 0 {
                            Some(
                                (
                                    model_merge(
                                        s1,
                                        ctx,
                                        ContentModel::Structure(FlatModel::Apply(r_symbol, r_args)),
                                    ),
                                    p1,
                                    Seq::empty(),
                                ),
                            )
                        } else {
                            Some((s1, p1, o))
                        },
                    }
                } else {
                    mismatched
                },
                _ => mismatched,
            },
            FlatModel::Func(l_args, l_ret) => match right {
                FlatModel::Func(r_args, r_ret) => if l_args.len() == r_args.len() {
                    match model_unify_zip(s, p, l_args, r_args, 0, Seq::empty(), f) {
                        None => None,
                        Some((s1, p1, arg_o)) => match model_unify_pool(s1, p1, l_ret, r_ret, f) {
                            None => None,
                            Some((s2, p2, ret_o)) => if arg_o.len() == 0 && ret_o.len() == 0 {
                                Some(
                                    (
                                        model_merge(
                                            s2,
                                            ctx,
                                            ContentModel::Structure(FlatModel::Func(r_args, r_ret)),
                                        ),
                                        p2,
                                        Seq::empty(),
                                    ),
                                )
                            } else {
                                Some((s2, p2, ret_o + arg_o))
                            },
                        },
                    }
                } else {
                    mismatched
                },
                _ => mismatched,
            },
            FlatModel::Erroneous(_) => mismatched,
        }
    }
}

/// Gathering both tag unions along their extensions, then unifying them.
pub open spec fn model_unify_gathered_tags(
    s: SubsModel,
    p: Seq<Variable>,
    ctx: ContextModel,
    tags1: Seq<(TagName, Seq<Variable>)>,
    ext1: Variable,
    tags2: Seq<(TagName, Seq<Variable>)>,
    ext2: Variable,
    rec1: Option<Variable>,
    rec2: Option<Variable>,
    fuel: nat,
) -> Step
    decreases fuel, 0int,
{
    if fuel == 0 {
        None
    } else {
        let f = (fuel - 1) as nat;
        match model_gather_tags(s, tags1, ext1, f) {
            None => None,
            Some((t1, e1)) => match model_gather_tags(s, tags2, ext2, f) {
                None => None,
                Some((t2, e2)) => model_unify_tag_union(s, p, ctx, t1, e1, t2, e2, rec1, rec2, f),
            },
        }
    }
}

/// Unifying two uniqueness attributes.
pub open spec fn model_unify_bool(
    s: SubsModel,
    p: Seq<Variable>,
    ctx: ContextModel,
    b1: BoolModel,
    b2: BoolModel,
    fuel: nat,
) -> Step
    decreases fuel, 0int,
{
    if fuel == 0 {
        None
    } else {
        let f = (fuel - 1) as nat;
        let shared_content = ContentModel::Structure(FlatModel::Boolean(BoolModel::Shared));
        match (b1, b2) {
            (BoolModel::Shared, BoolModel::Shared) => Some((model_merge(s, ctx, shared_content), p, Seq::empty())),
            (BoolModel::Shared, BoolModel::Container(cvar, mvars)) => match model_unify_pool(s, p, ctx.first, cvar, f) {
                None => None,
                Some((s1, p1, o1)) => match model_unify_each(s1, p1, ctx.first, mvars, 0, o1, f) {
                    None => None,
                    Some((s2, p2, o2)) => Some((model_merge(s2, ctx, shared_content), p2, o2)),
                },
            },
            (BoolModel::Container(cvar, mvars), BoolModel::Shared) => match model_unify_pool(s, p, ctx.second, cvar, f) {
                None => None,
                Some((s1, p1, o1)) => match model_unify_each(s1, p1, ctx.second, mvars, 0, o1, f) {
                    None => None,
                    Some((s2, p2, o2)) => Some((model_merge(s2, ctx, shared_content), p2, o2)),
                },
            },
            (BoolModel::Container(cvar1, mvars1), BoolModel::Container(cvar2, mvars2)) => match model_unify_pool(
                s,
                p,
                cvar1,
                cvar2,
                f,
            ) {
                None => None,
                Some((s1, p1, _)) => Some(
                    (
                        model_merge(
                            s1,
                            ctx,
                            ContentModel::Structure(
                                FlatModel::Boolean(BoolModel::Container(cvar1, collect_roots(s1, mvars1 + mvars2))),
                            ),
                        ),
                        p1,
                        Seq::empty(),
                    ),
                ),
            },
        }
    }
}

/// Unifying two records given with their gathered fields and extensions.
pub open spec fn model_unify_record(
    s: SubsModel,
    p: Seq<Variable>,
    ctx: ContextModel,
    fields1: Seq<(Lowercase, Variable)>,
    ext1: Variable,
    fields2: Seq<(Lowercase, Variable)>,
    ext2: Variable,
    fuel: nat,
) -> Step
    decreases fuel, 0int,
{
    if fuel == 0 {
        None
    } else {
        let f = (fuel - 1) as nat;
        let shared_fields = shared(fields1, fields2);
        let unique1 = complement(fields1, fields2);
        let unique2 = complement(fields2, fields1);
        if unique1.len() == 0 {
            if unique2.len() == 0 {
                match model_unify_pool(s, p, ext1, ext2, f) {
                    None => None,
                    Some((s1, p1, o1)) => if o1.len() > 0 {
                        Some((s1, p1, o1))
                    } else {
                        model_unify_shared_fields(s1, p1, ctx, shared_fields, Seq::empty(), ext1, f)
                    },
                }
            } else {
                let (s1, p1, sub) = model_fresh(
                    s,
                    p,
                    ctx,
                    ContentModel::Structure(FlatModel::Record(unique2, ext2)),
                );
                match model_unify_pool(s1, p1, ext1, sub, f) {
                    None => None,
                    Some((s2, p2, o2)) => if o2.len() > 0 {
                        Some((s2, p2, o2))
                    } else {
                        model_unify_shared_fields(s2, p2, ctx, shared_fields, Seq::empty(), sub, f)
                    },
                }
            }
        } else if unique2.len() == 0 {
            let (s1, p1, sub) = model_fresh(s, p, ctx, ContentModel::Structure(FlatModel::Record(unique1, ext1)));
            match model_unify_pool(s1, p1, sub, ext2, f) {
                None => None,
                Some((s2, p2, o2)) => if o2.len() > 0 {
                    Some((s2, p2, o2))
                } else {
                    model_unify_shared_fields(s2, p2, ctx, shared_fields, Seq::empty(), sub, f)
                },
            }
        } else {
            let other = map_union(unique1, unique2);
            let (s1, p1, ext) = model_fresh(s, p, ctx, ContentModel::FlexVar(None));
            let (s2, p2, sub1) = model_fresh(s1, p1, ctx, ContentModel::Structure(FlatModel::Record(unique1, ext)));
            let (s3, p3, sub2) = model_fresh(s2, p2, ctx, ContentModel::Structure(FlatModel::Record(unique2, ext)));
            match model_unify_pool(s3, p3, ext1, sub2, f) {
                None => None,
                Some((s4, p4, o4)) => if o4.len() > 0 {
                    Some((s4, p4, o4))
                } else {
                    match model_unify_pool(s4, p4, sub1, ext2, f) {
                        None => None,
                        Some((s5, p5, o5)) => if o5.len() > 0 {
                            Some((s5, p5, o5))
                        } else {
                            model_unify_shared_fields(s5, p5, ctx, shared_fields, other, ext, f)
                        },
                    }
                },
            }
        }
    }
}

/// Unifying the shared fields of two records, then merging the context's
/// classes into a record of the matching fields, `other` and the fields of
/// the extension chain from `ext`.
pub open spec fn model_unify_shared_fields(
    s: SubsModel,
    p: Seq<Variable>,
    ctx: ContextModel,
    shared_fields: Seq<(Lowercase, (Variable, Variable))>,
    other: Seq<(Lowercase, Variable)>,
    ext: Variable,
    fuel: nat,
) -> Step
    decreases fuel, 0int,
{
    if fuel == 0 {
        None
    } else {
        let f = (fuel - 1) as nat;
        match model_match_fields(s, p, shared_fields, 0, Seq::empty(), f) {
            None => None,
            Some((s1, p1, matching)) => if shared_fields.len() == matching.len() {
                match model_chase_record(s1, ext, map_union(matching, other), f) {
                    None => None,
                    Some((fields, end)) => {
                        let new_ext = match end {
                            None => EMPTY_RECORD,
                            Some(v) => v,
                        };
                        Some(
                            (
                                model_merge(
                                    s1,
                                    ctx,
                                    ContentModel::Structure(FlatModel::Record(fields, new_ext)),
                                ),
                                p1,
                                Seq::empty(),
                            ),
                        )
                    },
                }
            } else {
                // the store keeps what the field unifications did
                Some((s1, p1, type_mismatch()))
            },
        }
    }
}

/// Unifying the shared fields from index `i` on; `acc` maps each field
/// unified so far without mismatch to its first variable.
pub open spec fn model_match_fields(
    s: SubsModel,
    p: Seq<Variable>,
    shared_fields: Seq<(Lowercase, (Variable, Variable))>,
    i: int,
    acc: Seq<(Lowercase, Variable)>,
    fuel: nat,
) -> Option<(SubsModel, Seq<Variable>, Seq<(Lowercase, Variable)>)>
    decreases fuel, shared_fields.len() - i,
{
    if fuel == 0 {
        None
    } else if i < 0 || i >= shared_fields.len() {
        Some((s, p, acc))
    } else {
        let (name, (actual, expected)) = shared_fields[i];
        match model_unify_pool(s, p, actual, expected, (fuel - 1) as nat) {
            None => None,
            Some((s1, p1, o)) => model_match_fields(
                s1,
                p1,
                shared_fields,
                i + 1,
                if o.len() == 0 {
                    map_insert(acc, name, actual)
                } else {
                    acc
                },
                fuel,
            ),
        }
    }
}

/// Unifying two tag unions given with their gathered tags and extensions,
/// and the recursion variables of those that are recursive: first the
/// recursion variables when both are recursive.
pub open spec fn model_unify_tag_union(
    s: SubsModel,
    p: Seq<Variable>,
    ctx: ContextModel,
    tags1: Seq<(TagName, Seq<Variable>)>,
    ext1: Variable,
    tags2: Seq<(TagName, Seq<Variable>)>,
    ext2: Variable,
    rec1: Option<Variable>,
    rec2: Option<Variable>,
    fuel: nat,
) -> Step
    decreases fuel, 0int,
{
    if fuel == 0 {
        None
    } else {
        let f = (fuel - 1) as nat;
        match (rec1, rec2) {
            (None, None) => model_unify_tag_exts(s, p, ctx, tags1, ext1, tags2, ext2, None, f),
            (Some(v), None) => model_unify_tag_exts(s, p, ctx, tags1, ext1, tags2, ext2, Some(v), f),
            (None, Some(v)) => model_unify_tag_exts(s, p, ctx, tags1, ext1, tags2, ext2, Some(v), f),
            (Some(v1), Some(v2)) => match model_unify_pool(s, p, v1, v2, f) {
                None => None,
                Some((s1, p1, _)) => model_unify_tag_exts(s1, p1, ctx, tags1, ext1, tags2, ext2, Some(v1), f),
            },
        }
    }
}

/// Unifying two tag unions once their recursion variables are settled
/// (`rv`): the tags of each that the other lacks go to its extension.
pub open spec fn model_unify_tag_exts(
    s: SubsModel,
    p: Seq<Variable>,
    ctx: ContextModel,
    tags1: Seq<(TagName, Seq<Variable>)>,
    ext1: Variable,
    tags2: Seq<(TagName, Seq<Variable>)>,
    ext2: Variable,
    rv: Option<Variable>,
    fuel: nat,
) -> Step
    decreases fuel, 0int,
{
    if fuel == 0 {
        None
    } else {
        let f = (fuel - 1) as nat;
        let shared_tags = shared(tags1, tags2);
        let unique1 = complement(tags1, tags2);
        let unique2 = complement(tags2, tags1);
        if unique1.len() == 0 {
            if unique2.len() == 0 {
                match model_unify_pool(s, p, ext1, ext2, f) {
                    None => None,
                    Some((s1, p1, o1)) => if o1.len() > 0 {
                        Some((s1, p1, o1))
                    } else {
                        model_unify_shared_tags(s1, p1, ctx, shared_tags, Seq::empty(), ext1, rv, f)
                    },
                }
            } else {
                let (s1, p1, sub) = model_fresh(
                    s,
                    p,
                    ctx,
                    ContentModel::Structure(FlatModel::TagUnion(unique2, ext2)),
                );
                match model_unify_pool(s1, p1, ext1, sub, f) {
                    None => None,
                    Some((s2, p2, o2)) => if o2.len() > 0 {
                        Some((s2, p2, o2))
                    } else {
                        model_unify_shared_tags(s2, p2, ctx, shared_tags, Seq::empty(), sub, rv, f)
                    },
                }
            }
        } else if unique2.len() == 0 {
            let (s1, p1, sub) = model_fresh(
                s,
                p,
                ctx,
                ContentModel::Structure(FlatModel::TagUnion(unique1, ext1)),
            );
            match model_unify_pool(s1, p1, sub, ext2, f) {
                None => None,
                Some((s2, p2, o2)) => if o2.len() > 0 {
                    Some((s2, p2, o2))
                } else {
                    model_unify_shared_tags(s2, p2, ctx, shared_tags, Seq::empty(), sub, rv, f)
                },
            }
        } else {
            model_unify_split_tags(s, p, ctx, shared_tags, unique1, ext1, unique2, ext2, rv, f)
        }
    }
}

/// Unifying two tag unions that each have tags the other lacks: both
/// extensions become a union of the other's own tags over one fresh
/// extension.
pub open spec fn model_unify_split_tags(
    s: SubsModel,
    p: Seq<Variable>,
    ctx: ContextModel,
    shared_tags: Seq<(TagName, (Seq<Variable>, Seq<Variable>))>,
    unique1: Seq<(TagName, Seq<Variable>)>,
    ext1: Variable,
    unique2: Seq<(TagName, Seq<Variable>)>,
    ext2: Variable,
    rv: Option<Variable>,
    fuel: nat,
) -> Step
    decreases fuel, 0int,
{
    if fuel == 0 {
        None
    } else {
        let f = (fuel - 1) as nat;
        let other = map_union(unique1, unique2);
        let (s1, p1, ext) = model_fresh(s, p, ctx, ContentModel::FlexVar(None));
        let (s2, p2, sub1) = model_fresh(s1, p1, ctx, ContentModel::Structure(FlatModel::TagUnion(unique1, ext)));
        let (s3, p3, sub2) = model_fresh(s2, p2, ctx, ContentModel::Structure(FlatModel::TagUnion(unique2, ext)));
        // a failed extension unification is rolled back to the store `s3`
        match model_unify_pool(s3, p3, ext1, sub2, f) {
            None => None,
            Some((s4, p4, o4)) => if o4.len() > 0 {
                Some((s3, p4, o4))
            } else {
                match model_unify_pool(s4, p4, sub1, ext2, f) {
                    None => None,
                    Some((s5, p5, o5)) => if o5.len() > 0 {
                        Some((s3, p5, o5))
                    } else {
                        model_unify_shared_tags(s5, p5, ctx, shared_tags, other, ext, rv, f)
                    },
                }
            },
        }
    }
}

/// Unifying the shared tags of two tag unions, then merging the context's
/// classes into a tag union of the matching tags, `other` and the tags of
/// the extension chain from `ext` (recursive when `rv` is a variable).
pub open spec fn model_unify_shared_tags(
    s: SubsModel,
    p: Seq<Variable>,
    ctx: ContextModel,
    shared_tags: Seq<(TagName, (Seq<Variable>, Seq<Variable>))>,
    other: Seq<(TagName, Seq<Variable>)>,
    ext: Variable,
    rv: Option<Variable>,
    fuel: nat,
) -> Step
    decreases fuel, 0int,
{
    if fuel == 0 {
        None
    } else {
        let f = (fuel - 1) as nat;
        match model_match_tags(s, p, shared_tags, 0, Seq::empty(), f) {
            None => None,
            Some((s1, p1, matching)) => if shared_tags.len() == matching.len() {
                match model_chase_tags(s1, ext, Seq::empty(), f) {
                    None => None,
                    Some((fields, end)) => {
                        let new_ext = match end {
                            None => EMPTY_TAG_UNION,
                            Some(v) => v,
                        };
                        let new_tags = map_union(map_union(matching, other), fields);
                        let flat = match rv {
                            Some(r) => FlatModel::RecursiveTagUnion(r, new_tags, new_ext),
                            None => FlatModel::TagUnion(new_tags, new_ext),
                        };
                        Some((model_merge(s1, ctx, ContentModel::Structure(flat)), p1, Seq::empty()))
                    },
                }
            } else {
                Some((s1, p1, type_mismatch()))
            },
        }
    }
}

/// Unifying the payloads of the shared tags from index `i` on; `acc` maps
/// each tag whose payloads have one length and unified without mismatch
/// to its first payload.
pub open spec fn model_match_tags(
    s: SubsModel,
    p: Seq<Variable>,
    shared_tags: Seq<(TagName, (Seq<Variable>, Seq<Variable>))>,
    i: int,
    acc: Seq<(TagName, Seq<Variable>)>,
    fuel: nat,
) -> Option<(SubsModel, Seq<Variable>, Seq<(TagName, Seq<Variable>)>)>
    decreases fuel, shared_tags.len() - i,
{
    if fuel == 0 {
        None
    } else if i < 0 || i >= shared_tags.len() {
        Some((s, p, acc))
    } else {
        let (name, (actual, expected)) = shared_tags[i];
        match model_match_vars(s, p, actual, expected, 0, Seq::empty(), (fuel - 1) as nat) {
            None => None,
            Some((s1, p1, matched)) => model_match_tags(
                s1,
                p1,
                shared_tags,
                i + 1,
                if actual.len() == expected.len() && actual.len() == matched.len() {
                    map_insert(acc, name, matched)
                } else {
                    acc
                },
                fuel,
            ),
        }
    }
}

/// Unifying two payloads pairwise from index `i` on; `acc` holds the
/// variables of `actual` unified so far without mismatch.
pub open spec fn model_match_vars(
    s: SubsModel,
    p: Seq<Variable>,
    actual: Seq<Variable>,
    expected: Seq<Variable>,
    i: int,
    acc: Seq<Variable>,
    fuel: nat,
) -> Option<(SubsModel, Seq<Variable>, Seq<Variable>)>
    decreases fuel, actual.len() - i,
{
    if fuel == 0 {
        None
    } else if i < 0 || i >= actual.len() || i >= expected.len() {
        Some((s, p, acc))
    } else {
        match model_unify_pool(s, p, actual[i], expected[i], (fuel - 1) as nat) {
            None => None,
            Some((s1, p1, o)) => model_match_vars(
                s1,
                p1,
                actual,
                expected,
                i + 1,
                if o.len() == 0 {
                    acc.push(actual[i])
                } else {
                    acc
                },
                fuel,
            ),
        }
    }
}


/// Unifying `a` with `b` returns: the model has a result for some fuel.
pub open spec fn unify_pool_returns(s: SubsModel, p: Seq<Variable>, a: Variable, b: Variable) -> bool {
    exists|fuel: nat| #[trigger] model_unify_pool(s, p, a, b, fuel) is Some
}

/// A fuel for which the model of unifying `a` with `b` has a result.
pub open spec fn pool_fuel(s: SubsModel, p: Seq<Variable>, a: Variable, b: Variable) -> nat {
    choose|fuel: nat| #[trigger] model_unify_pool(s, p, a, b, fuel) is Some
}

/// The store, pool and mismatches after unifying `a` with `b`.
pub open spec fn unify_pool_result(s: SubsModel, p: Seq<Variable>, a: Variable, b: Variable) -> (
    SubsModel,
    Seq<Variable>,
    Seq<Mismatch>,
) {
    model_unify_pool(s, p, a, b, pool_fuel(s, p, a, b))->Some_0
}

/// `step` is the result `(s, p, o)`.
pub open spec fn step_is(step: Step, s: SubsModel, p: Seq<Variable>, o: Seq<Mismatch>) -> bool {
    step == Some((s, p, o))
}

/// `p1` is `p0` followed by variables at or above `n`: the pool gained
/// only variables created once the store held `n` of them.
pub open spec fn pool_extends(n: nat, p0: Seq<Variable>, p1: Seq<Variable>) -> bool {
    &&& p0.len() <= p1.len()
    &&& forall|i: int| 0 <= i < p0.len() ==> #[trigger] p1[i] == p0[i]
    &&& forall|i: int| p0.len() <= i < p1.len() ==> n <= #[trigger] p1[i]
}

/// Extending a pool twice extends it.
pub proof fn lemma_pool_extends_trans(n0: nat, p0: Seq<Variable>, n1: nat, p1: Seq<Variable>, p2: Seq<Variable>)
    requires
        pool_extends(n0, p0, p1),
        pool_extends(n1, p1, p2),
        n0 <= n1,
    ensures
        pool_extends(n0, p0, p2),
{
    assert forall|i: int| 0 <= i < p0.len() implies #[trigger] p2[i] == p0[i] by {
        assert(p2[i] == p1[i]);
    }
    assert forall|i: int| p0.len() <= i < p2.len() implies n0 <= #[trigger] p2[i] by {
        if i < p1.len() {
            assert(p2[i] == p1[i]);
        }
    }
}

/// Both variables of each shared field lie below `n`.
pub open spec fn pairs_below(sh: Seq<(Lowercase, (Variable, Variable))>, n: nat) -> bool {
    forall|i: int| #![trigger sh[i]] 0 <= i < sh.len() ==> sh[i].1.0 < n && sh[i].1.1 < n
}

/// Both payloads of each shared tag lie below `n`.
pub open spec fn tag_pairs_below(sh: Seq<(TagName, (Seq<Variable>, Seq<Variable>))>, n: nat) -> bool {
    forall|i: int| #![trigger sh[i]] 0 <= i < sh.len() ==> vars_below(sh[i].1.0, n) && vars_below(sh[i].1.1, n)
}

/// Lying below a bound is kept under a larger bound.
pub proof fn lemma_ctx_mono(ctx: ContextModel, n: nat, m: nat)
    requires
        ctx_below(ctx, n),
        n <= m,
    ensures
        ctx_below(ctx, m),
{
    lemma_content_below_mono(ctx.first_desc.content, n, m);
    lemma_content_below_mono(ctx.second_desc.content, n, m);
}

/// Lying below a bound is kept under a larger bound.
pub proof fn lemma_vars_below_mono(vs: Seq<Variable>, n: nat, m: nat)
    requires
        vars_below(vs, n),
        n <= m,
    ensures
        vars_below(vs, m),
{
}


/// Lying below a bound is kept under a larger bound.
pub proof fn lemma_pairs_mono(sh: Seq<(Lowercase, (Variable, Variable))>, n: nat, m: nat)
    requires
        pairs_below(sh, n),
        n <= m,
    ensures
        pairs_below(sh, m),
{
    assert forall|i: int| 0 <= i < sh.len() implies sh[i].1.0 < m && sh[i].1.1 < m by {
        assert(sh[i].1.0 < n && sh[i].1.1 < n);
    }
}

/// Lying below a bound is kept under a larger bound.
pub proof fn lemma_tag_pairs_mono(sh: Seq<(TagName, (Seq<Variable>, Seq<Variable>))>, n: nat, m: nat)
    requires
        tag_pairs_below(sh, n),
        n <= m,
    ensures
        tag_pairs_below(sh, m),
{
    assert forall|i: int| 0 <= i < sh.len() implies vars_below(sh[i].1.0, m) && vars_below(sh[i].1.1, m) by {
        assert(vars_below(sh[i].1.0, n) && vars_below(sh[i].1.1, n));
    }
}

} // verus!
