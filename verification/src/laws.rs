//! What unification does, stated over its inputs and results: how variables
//! of each kind meet, how a unification relates to the unifications of the
//! parts it is made of, and which fields and tags the merged type holds.
use vstd::prelude::*;
use crate::types::{Variable, Lowercase, Symbol, Mismatch, FlatModel, ContentModel};
use crate::subs::{SubsModel, lemma_get_below, lemma_union};
use crate::model::{
    context_of, merged, model_merge, model_unify_pool, model_unify_context, model_unify_zip, type_mismatch,
    model_unify_structure, model_unify_flat_type,
    unify_pool_returns, unify_pool_result,
};
use crate::fuel::{lemma_unify_pool_result, lemma_mono_pool};
use crate::types::{MARK_NONE, BoolModel, DescModel, TagName, fields_below, tags_below, var_below, list_below, vars_below, lemma_content_below_mono};
use crate::maps::{
    lookup, map_union, complement, shared, unique_keys, insert_firsts, lemma_lookup_union,
    lemma_lookup_complement, lemma_lookup_shared, lemma_lookup_insert_firsts, lemma_union_unique,
    lemma_complement_unique, lemma_shared_unique, lemma_shared_members, lemma_complement_all,
    lemma_union_all, lemma_insert_firsts_len,
};
use crate::subs::{model_gather_fields, model_chase_record, model_chase_tags, lemma_fresh, lemma_coarsens_trans};
use crate::model::{
    ContextModel, model_fresh, model_unify_record, model_unify_shared_fields, model_match_fields,
    model_gather_tags, model_unify_gathered_tags, model_unify_tag_union, model_unify_tag_exts,
    model_unify_split_tags, model_unify_shared_tags, model_match_tags, model_match_vars, model_unify_args,
    model_unify_bool,
};

verus! {

/// A flexible variable unified with a rigid variable named `n`, in either
/// order, succeeds without creating variables, and the joined class is the
/// rigid variable `n`.
pub proof fn lemma_flex_meets_rigid(s: SubsModel, p: Seq<Variable>, a: Variable, b: Variable, n: Lowercase)
    requires
        s.wf(),
        a < s.len(),
        b < s.len(),
        (s.get(a).content is FlexVar && s.get(b).content == ContentModel::RigidVar(n)) || (s.get(a).content
            == ContentModel::RigidVar(n) && s.get(b).content is FlexVar),
    ensures
        unify_pool_returns(s, p, a, b),
        unify_pool_result(s, p, a, b).2 == Seq::<Mismatch>::empty(),
        unify_pool_result(s, p, a, b).1 == p,
        unify_pool_result(s, p, a, b).0.equiv(a, b),
        unify_pool_result(s, p, a, b).0.get(a).content == ContentModel::RigidVar(n),
        unify_pool_result(s, p, a, b).0.get(b).content == ContentModel::RigidVar(n),
{
    let ctx = context_of(s, a, b);
    let c = ContentModel::RigidVar(n);
    lemma_union(s, a, b, merged(ctx, c));
    let t = model_merge(s, ctx, c);
    assert(t.get(b) == t.get(a));
    assert(model_unify_context(s, p, ctx, 2) == Some((t, p, Seq::<Mismatch>::empty())));
    assert(model_unify_pool(s, p, a, b, 3) is Some);
    lemma_unify_pool_result(s, p, a, b, 3);
}

/// A rigid variable unifies with a flexible variable only: against another
/// rigid variable (whatever its name), a structure or an alias it reports a
/// single mismatch and changes nothing.
pub proof fn lemma_rigid_meets_non_flex(s: SubsModel, p: Seq<Variable>, a: Variable, b: Variable, n: Lowercase)
    requires
        s.wf(),
        a < s.len(),
        b < s.len(),
        s.get(a).content == ContentModel::RigidVar(n),
        s.get(b).content is RigidVar || s.get(b).content is Structure || s.get(b).content is Alias,
        !s.equiv(a, b),
    ensures
        unify_pool_returns(s, p, a, b),
        unify_pool_result(s, p, a, b) == (s, p, type_mismatch()),
{
    assert(model_unify_pool(s, p, a, b, 2) == Some((s, p, type_mismatch())));
    lemma_unify_pool_result(s, p, a, b, 2);
}

/// Two applications of different constructors never unify: a single
/// mismatch, and nothing changes.
pub proof fn lemma_applications_of_two_constructors(
    s: SubsModel,
    p: Seq<Variable>,
    a: Variable,
    b: Variable,
    c1: Symbol,
    args1: Seq<Variable>,
    c2: Symbol,
    args2: Seq<Variable>,
)
    requires
        s.get(a).content == ContentModel::Structure(FlatModel::Apply(c1, args1)),
        s.get(b).content == ContentModel::Structure(FlatModel::Apply(c2, args2)),
        c1 != c2,
    ensures
        unify_pool_returns(s, p, a, b),
        unify_pool_result(s, p, a, b) == (s, p, type_mismatch()),
{
    assert(!s.equiv(a, b));
    let ctx = context_of(s, a, b);
    let l = FlatModel::Apply(c1, args1);
    let r = FlatModel::Apply(c2, args2);
    assert(model_unify_flat_type(s, p, ctx, l, r, 1) == Some((s, p, type_mismatch())));
    assert(model_unify_structure(s, p, ctx, l, ContentModel::Structure(r), 2) == Some((s, p, type_mismatch())));
    assert(model_unify_context(s, p, ctx, 3) == Some((s, p, type_mismatch())));
    assert(model_unify_pool(s, p, a, b, 4) == Some((s, p, type_mismatch())));
    lemma_unify_pool_result(s, p, a, b, 4);
}

/// Unifying variables pairwise that are pairwise of one class already
/// changes nothing and finds nothing.
proof fn lemma_zip_of_equivalent(
    s: SubsModel,
    p: Seq<Variable>,
    l: Seq<Variable>,
    r: Seq<Variable>,
    i: int,
    acc: Seq<Mismatch>,
    fuel: nat,
)
    requires
        fuel >= 2,
        0 <= i <= l.len(),
        l.len() == r.len(),
        forall|j: int| i <= j < l.len() ==> s.equiv(#[trigger] l[j], r[j]),
    ensures
        model_unify_zip(s, p, l, r, i, acc, fuel) == Some((s, p, acc)),
    decreases l.len() - i,
{
    if i < l.len() {
        assert(s.equiv(l[i], r[i]));
        assert(model_unify_pool(s, p, l[i], r[i], (fuel - 1) as nat) == Some((s, p, Seq::<Mismatch>::empty())));
        assert(acc + Seq::<Mismatch>::empty() =~= acc);
        lemma_zip_of_equivalent(s, p, l, r, i + 1, acc, fuel);
    }
}

/// Two functions whose arguments are pairwise of one class unify exactly as
/// their results do: the same mismatches and the same pool, and on success
/// the two functions become one class, over the store that unifying the
/// results leaves; on failure that store is kept as it is.
pub proof fn lemma_functions_unify_as_their_results(
    s: SubsModel,
    p: Seq<Variable>,
    f: Variable,
    g: Variable,
    args1: Seq<Variable>,
    r1: Variable,
    args2: Seq<Variable>,
    r2: Variable,
)
    requires
        s.wf(),
        f < s.len(),
        g < s.len(),
        !s.equiv(f, g),
        s.get(f).content == ContentModel::Structure(FlatModel::Func(args1, r1)),
        s.get(g).content == ContentModel::Structure(FlatModel::Func(args2, r2)),
        args1.len() == args2.len(),
        forall|j: int| 0 <= j < args1.len() ==> s.equiv(#[trigger] args1[j], args2[j]),
    ensures
        unify_pool_returns(s, p, f, g) == unify_pool_returns(s, p, r1, r2),
        unify_pool_returns(s, p, r1, r2) ==> ({
            let (s1, p1, o1) = unify_pool_result(s, p, r1, r2);
            let (s2, p2, o2) = unify_pool_result(s, p, f, g);
            &&& o2 == o1
            &&& p2 == p1
            &&& o1.len() == 0 ==> s2 == model_merge(
                s1,
                context_of(s, f, g),
                ContentModel::Structure(FlatModel::Func(args2, r2)),
            )
            &&& o1.len() > 0 ==> s2 == s1
        }),
{
    let ctx = context_of(s, f, g);
    // unifying the functions with fuel `k + 4` is unifying the results with `k`
    assert forall|k: nat| k >= 2 implies #[trigger] model_unify_pool(s, p, f, g, k + 4) == (match model_unify_pool(
        s,
        p,
        r1,
        r2,
        k,
    ) {
        None => None,
        Some((s1, p1, o1)) => if o1.len() == 0 {
            Some(
                (
                    model_merge(s1, ctx, ContentModel::Structure(FlatModel::Func(args2, r2))),
                    p1,
                    Seq::<Mismatch>::empty(),
                ),
            )
        } else {
            Some((s1, p1, o1 + Seq::<Mismatch>::empty()))
        },
    }) by {
        let lf = FlatModel::Func(args1, r1);
        let rf = FlatModel::Func(args2, r2);
        lemma_zip_of_equivalent(s, p, args1, args2, 0, Seq::empty(), k);
        let target = model_unify_flat_type(s, p, ctx, lf, rf, k + 1);
        assert(model_unify_structure(s, p, ctx, lf, ContentModel::Structure(rf), k + 2) == target);
        assert(model_unify_context(s, p, ctx, k + 3) == target);
    }
    if unify_pool_returns(s, p, f, g) {
        let fuel = choose|fuel: nat| #[trigger] model_unify_pool(s, p, f, g, fuel) is Some;
        lemma_mono_pool(s, p, f, g, fuel, fuel + 6);
        let k = (fuel + 2) as nat;
        assert(model_unify_pool(s, p, f, g, k + 4) is Some);
        assert(model_unify_pool(s, p, r1, r2, k) is Some);
    }
    if unify_pool_returns(s, p, r1, r2) {
        let fuel = choose|fuel: nat| #[trigger] model_unify_pool(s, p, r1, r2, fuel) is Some;
        lemma_mono_pool(s, p, r1, r2, fuel, fuel + 2);
        let k = (fuel + 2) as nat;
        assert(model_unify_pool(s, p, r1, r2, k) is Some);
        assert(model_unify_pool(s, p, f, g, k + 4) is Some);
        lemma_unify_pool_result(s, p, r1, r2, k);
        lemma_unify_pool_result(s, p, f, g, k + 4);
        let (s1, p1, o1) = unify_pool_result(s, p, r1, r2);
        assert(o1 + Seq::<Mismatch>::empty() =~= o1);
    }
}

/// When unifying `a` with `b` is, for every fuel, unifying `c` with `d` with
/// less fuel, both return on the same inputs and give the same result.
proof fn lemma_same_outcome(s: SubsModel, p: Seq<Variable>, a: Variable, b: Variable, c: Variable, d: Variable, shift: nat)
    requires
        forall|k: nat| #[trigger] model_unify_pool(s, p, a, b, k + shift) == model_unify_pool(s, p, c, d, k),
    ensures
        unify_pool_returns(s, p, a, b) == unify_pool_returns(s, p, c, d),
        unify_pool_returns(s, p, c, d) ==> unify_pool_result(s, p, a, b) == unify_pool_result(s, p, c, d),
{
    if unify_pool_returns(s, p, a, b) {
        let fuel = choose|fuel: nat| #[trigger] model_unify_pool(s, p, a, b, fuel) is Some;
        lemma_mono_pool(s, p, a, b, fuel, fuel + shift);
        assert(model_unify_pool(s, p, c, d, fuel) is Some);
    }
    if unify_pool_returns(s, p, c, d) {
        let k = choose|fuel: nat| #[trigger] model_unify_pool(s, p, c, d, fuel) is Some;
        assert(model_unify_pool(s, p, a, b, k + shift) is Some);
        lemma_unify_pool_result(s, p, c, d, k);
        lemma_unify_pool_result(s, p, a, b, k + shift);
    }
}

/// Two aliases of different names unify exactly as their real types do.
pub proof fn lemma_aliases_of_two_names(
    s: SubsModel,
    p: Seq<Variable>,
    a1: Variable,
    a2: Variable,
    sym1: Symbol,
    args1: Seq<(Lowercase, Variable)>,
    real1: Variable,
    sym2: Symbol,
    args2: Seq<(Lowercase, Variable)>,
    real2: Variable,
)
    requires
        s.get(a1).content == ContentModel::Alias(sym1, args1, real1),
        s.get(a2).content == ContentModel::Alias(sym2, args2, real2),
        sym1 != sym2,
    ensures
        unify_pool_returns(s, p, a1, a2) == unify_pool_returns(s, p, real1, real2),
        unify_pool_returns(s, p, real1, real2) ==> unify_pool_result(s, p, a1, a2) == unify_pool_result(
            s,
            p,
            real1,
            real2,
        ),
{
    assert(!s.equiv(a1, a2));
    let ctx = context_of(s, a1, a2);
    assert forall|k: nat| #[trigger] model_unify_pool(s, p, a1, a2, k + 3) == model_unify_pool(s, p, real1, real2, k) by {
        assert(model_unify_context(s, p, ctx, k + 2) == model_unify_pool(s, p, real1, real2, k));
    }
    lemma_same_outcome(s, p, a1, a2, real1, real2, 3);
}

/// An alias unifies with a structure or a rigid variable exactly as its
/// real type does.
pub proof fn lemma_alias_meets_other(
    s: SubsModel,
    p: Seq<Variable>,
    a: Variable,
    b: Variable,
    sym: Symbol,
    args: Seq<(Lowercase, Variable)>,
    real_var: Variable,
)
    requires
        s.get(a).content == ContentModel::Alias(sym, args, real_var),
        s.get(b).content is Structure || s.get(b).content is RigidVar,
    ensures
        unify_pool_returns(s, p, a, b) == unify_pool_returns(s, p, real_var, b),
        unify_pool_returns(s, p, real_var, b) ==> unify_pool_result(s, p, a, b) == unify_pool_result(
            s,
            p,
            real_var,
            b,
        ),
{
    assert(!s.equiv(a, b));
    let ctx = context_of(s, a, b);
    assert forall|k: nat| #[trigger] model_unify_pool(s, p, a, b, k + 3) == model_unify_pool(s, p, real_var, b, k) by {
        assert(model_unify_context(s, p, ctx, k + 2) == model_unify_pool(s, p, real_var, b, k));
    }
    lemma_same_outcome(s, p, a, b, real_var, b, 3);
}

/// A structure unifies with an alias exactly as it does with the alias's
/// real type.
pub proof fn lemma_structure_meets_alias(
    s: SubsModel,
    p: Seq<Variable>,
    a: Variable,
    b: Variable,
    ft: FlatModel,
    sym: Symbol,
    args: Seq<(Lowercase, Variable)>,
    real_var: Variable,
)
    requires
        s.get(a).content == ContentModel::Structure(ft),
        s.get(b).content == ContentModel::Alias(sym, args, real_var),
    ensures
        unify_pool_returns(s, p, a, b) == unify_pool_returns(s, p, a, real_var),
        unify_pool_returns(s, p, a, real_var) ==> unify_pool_result(s, p, a, b) == unify_pool_result(
            s,
            p,
            a,
            real_var,
        ),
{
    assert(!s.equiv(a, b));
    let ctx = context_of(s, a, b);
    assert forall|k: nat| #[trigger] model_unify_pool(s, p, a, b, k + 3) == model_unify_pool(s, p, a, real_var, k) by {
        assert(model_unify_context(s, p, ctx, k + 2) == model_unify_pool(s, p, a, real_var, k));
    }
    lemma_same_outcome(s, p, a, b, a, real_var, 3);
}

/// After a union, the first variable's class holds the new descriptor and
/// both variables are of one class.
proof fn lemma_union_get(s: SubsModel, a: Variable, b: Variable, d: DescModel)
    requires
        s.wf(),
        a < s.len(),
        b < s.len(),
    ensures
        s.union(a, b, d).equiv(a, b),
        s.union(a, b, d).get(a) == d,
        s.union(a, b, d).get(b) == d,
{
    assert(s.roots[s.roots[a as int] as int] == s.roots[a as int]);
}

/// A union leaves every other class as it was.
proof fn lemma_union_frame(s: SubsModel, a: Variable, b: Variable, d: DescModel, v: Variable)
    requires
        s.wf(),
        a < s.len(),
        b < s.len(),
        v < s.len(),
        !s.equiv(v, a),
        !s.equiv(v, b),
    ensures
        s.union(a, b, d).get(v) == s.get(v),
        s.union(a, b, d).root(v) == s.root(v),
{
    assert(s.roots[s.roots[a as int] as int] == s.roots[a as int]);
}

/// A label's value in the merge of two records: its value in the first if it
/// has one, its value in the second otherwise.
pub open spec fn field_of(f1: Seq<(Lowercase, Variable)>, f2: Seq<(Lowercase, Variable)>, k: Lowercase) -> Option<
    Variable,
> {
    if lookup(f1, k) is Some {
        lookup(f1, k)
    } else {
        lookup(f2, k)
    }
}

/// The class of `r` is a record that maps every label as `field_of` does.
pub open spec fn holds_fields_of(
    t: SubsModel,
    r: Variable,
    f1: Seq<(Lowercase, Variable)>,
    f2: Seq<(Lowercase, Variable)>,
) -> bool {
    &&& t.get(r).content is Structure
    &&& t.get(r).content->Structure_0 is Record
    &&& forall|k: Lowercase| #[trigger] lookup(t.get(r).content->Structure_0->Record_0, k) == field_of(f1, f2, k)
}

/// Each side can take the labels it lacks: it lacks none, or its row is open.
/// `first_lacks_none` says the second side has no label the first lacks.
pub open spec fn rows_take_the_rest(
    second_lacks_none: bool,
    first_lacks_none: bool,
    end1: ContentModel,
    end2: ContentModel,
) -> bool {
    &&& (first_lacks_none || end1 is FlexVar)
    &&& (second_lacks_none || end2 is FlexVar)
}

/// A record row ends in a flexible variable (open) or the empty record (closed).
pub open spec fn record_row_end(c: ContentModel) -> bool {
    c is FlexVar || c == ContentModel::Structure(FlatModel::EmptyRecord)
}

/// Labels that both records hold have variables of one class.
pub open spec fn shared_fields_joined(s: SubsModel, f1: Seq<(Lowercase, Variable)>, f2: Seq<(Lowercase, Variable)>) -> bool {
    forall|k: Lowercase, x: Variable, y: Variable|
        #[trigger] f1.contains((k, x)) && #[trigger] f2.contains((k, y)) ==> s.equiv(x, y)
}

/// Unifying shared fields whose two variables are of one class changes
/// nothing, finds nothing, and keeps the first variable of each.
proof fn lemma_match_fields_of_equivalent(
    s: SubsModel,
    p: Seq<Variable>,
    sh: Seq<(Lowercase, (Variable, Variable))>,
    i: int,
    acc: Seq<(Lowercase, Variable)>,
    fuel: nat,
)
    requires
        fuel >= 2,
        0 <= i <= sh.len(),
        forall|j: int| i <= j < sh.len() ==> s.equiv(#[trigger] sh[j].1.0, sh[j].1.1),
    ensures
        model_match_fields(s, p, sh, i, acc, fuel) == Some((s, p, insert_firsts(acc, sh, i))),
    decreases sh.len() - i,
{
    if i < sh.len() {
        let (name, (actual, expected)) = sh[i];
        assert(s.equiv(actual, expected));
        assert(model_unify_pool(s, p, actual, expected, (fuel - 1) as nat) == Some((s, p, Seq::<Mismatch>::empty())));
        lemma_match_fields_of_equivalent(s, p, sh, i + 1, crate::maps::map_insert(acc, name, actual), fuel);
    }
}

/// The two variables of each shared field are of one class in any store
/// that coarsens `s`.
proof fn lemma_shared_fields_joined(
    s: SubsModel,
    t: SubsModel,
    f1: Seq<(Lowercase, Variable)>,
    f2: Seq<(Lowercase, Variable)>,
)
    requires
        s.coarsens_to(t),
        fields_below(f1, s.len()),
        fields_below(f2, s.len()),
        shared_fields_joined(s, f1, f2),
    ensures
        forall|j: int| 0 <= j < shared(f1, f2).len() ==> t.equiv(#[trigger] shared(f1, f2)[j].1.0, shared(f1, f2)[j].1.1),
{
    let sh = shared(f1, f2);
    lemma_shared_members(f1, f2);
    assert forall|j: int| 0 <= j < sh.len() implies t.equiv(#[trigger] sh[j].1.0, sh[j].1.1) by {
        let x = sh[j];
        assert(sh.contains(x));
        assert(f1.contains((x.0, x.1.0)) && f2.contains((x.0, x.1.1)));
        let q1 = choose|q: int| 0 <= q < f1.len() && f1[q] == (x.0, x.1.0);
        let q2 = choose|q: int| 0 <= q < f2.len() && f2[q] == (x.0, x.1.1);
        assert(var_below(s.len())(f1[q1].1));
        assert(var_below(s.len())(f2[q2].1));
        assert(s.equiv(x.1.0, x.1.1));
    }
}

/// What the record laws assume: two records of distinct classes whose rows
/// each end open or closed (two ends of one class only when closed), each
/// holding a label once, whose shared labels have variables of one class.
pub open spec fn record_pair(
    s: SubsModel,
    r1: Variable,
    r2: Variable,
    f1: Seq<(Lowercase, Variable)>,
    e1: Variable,
    f2: Seq<(Lowercase, Variable)>,
    e2: Variable,
) -> bool {
    &&& s.wf()
    &&& r1 < s.len()
    &&& r2 < s.len()
    &&& s.len() + 3 < usize::MAX
    &&& !s.equiv(r1, r2)
    &&& s.get(r1).content == ContentModel::Structure(FlatModel::Record(f1, e1))
    &&& s.get(r2).content == ContentModel::Structure(FlatModel::Record(f2, e2))
    &&& unique_keys(f1)
    &&& unique_keys(f2)
    &&& record_row_end(s.get(e1).content)
    &&& record_row_end(s.get(e2).content)
    &&& s.equiv(e1, e2) ==> !(s.get(e1).content is FlexVar)
    &&& shared_fields_joined(s, f1, f2)
}

/// The result that the record laws are about, at a fuel that suffices.
pub open spec fn record_step(
    s: SubsModel,
    p: Seq<Variable>,
    r1: Variable,
    r2: Variable,
    f1: Seq<(Lowercase, Variable)>,
    e1: Variable,
    f2: Seq<(Lowercase, Variable)>,
    e2: Variable,
) -> bool {
    &&& model_unify_record(s, p, context_of(s, r1, r2), f1, e1, f2, e2, 6) is Some
    &&& ({
        let (t, _, o) = model_unify_record(s, p, context_of(s, r1, r2), f1, e1, f2, e2, 6)->Some_0;
        &&& o.len() == 0 ==> t.equiv(r1, r2) && holds_fields_of(t, r1, f1, f2)
        &&& o.len() == 0 <==> rows_take_the_rest(complement(f1, f2).len() == 0, complement(f2, f1).len() == 0, s.get(e1).content, s.get(e2).content)
    })
}

/// The labels both records hold, mapped to the first record's variable.
proof fn lemma_matching_lookup(f1: Seq<(Lowercase, Variable)>, f2: Seq<(Lowercase, Variable)>, k: Lowercase)
    requires
        unique_keys(f2),
    ensures
        lookup(insert_firsts(Seq::empty(), shared(f1, f2), 0), k) == if lookup(f1, k) is Some && lookup(f2, k) is Some {
            lookup(f1, k)
        } else {
            None
        },
{
    lemma_shared_unique(f1, f2);
    lemma_lookup_insert_firsts(Seq::<(Lowercase, Variable)>::empty(), shared(f1, f2), 0, k);
    lemma_lookup_shared(f1, f2, k);
}

/// Facts every branch uses: the derived maps hold each label once, and the
/// record fields lie in the store.
proof fn lemma_record_pair_facts(
    s: SubsModel,
    r1: Variable,
    r2: Variable,
    f1: Seq<(Lowercase, Variable)>,
    e1: Variable,
    f2: Seq<(Lowercase, Variable)>,
    e2: Variable,
)
    requires
        record_pair(s, r1, r2, f1, e1, f2, e2),
    ensures
        fields_below(f1, s.len()),
        fields_below(f2, s.len()),
        e1 < s.len(),
        e2 < s.len(),
        fields_below(complement(f1, f2), s.len()),
        fields_below(complement(f2, f1), s.len()),
        unique_keys(complement(f1, f2)),
        unique_keys(complement(f2, f1)),
        forall|k: Lowercase| #[trigger] lookup(complement(f1, f2), k) == if lookup(f2, k) is Some {
            None
        } else {
            lookup(f1, k)
        },
        forall|k: Lowercase| #[trigger] lookup(complement(f2, f1), k) == if lookup(f1, k) is Some {
            None
        } else {
            lookup(f2, k)
        },
        forall|k: Lowercase| #[trigger] lookup(insert_firsts(Seq::empty(), shared(f1, f2), 0), k) == if lookup(f1, k) is Some
            && lookup(f2, k) is Some {
            lookup(f1, k)
        } else {
            None
        },
{
    lemma_get_below(s, r1);
    lemma_get_below(s, r2);
    lemma_complement_all(f1, f2, var_below(s.len()));
    lemma_complement_all(f2, f1, var_below(s.len()));
    lemma_complement_unique(f1, f2);
    lemma_complement_unique(f2, f1);
    assert forall|k: Lowercase| #[trigger] lookup(complement(f1, f2), k) == if lookup(f2, k) is Some {
        None
    } else {
        lookup(f1, k)
    } by {
        lemma_lookup_complement(f1, f2, k);
    }
    assert forall|k: Lowercase| #[trigger] lookup(complement(f2, f1), k) == if lookup(f1, k) is Some {
        None
    } else {
        lookup(f2, k)
    } by {
        lemma_lookup_complement(f2, f1, k);
    }
    assert forall|k: Lowercase| #[trigger] lookup(insert_firsts(Seq::empty(), shared(f1, f2), 0), k) == if lookup(f1, k)
        is Some && lookup(f2, k) is Some {
        lookup(f1, k)
    } else {
        None
    } by {
        lemma_matching_lookup(f1, f2, k);
    }
}

/// The end of merging two records: the shared fields are unified (they are
/// of one class already), the row from `ext` is chased, and the records'
/// classes merge into a record of the fields found.
proof fn lemma_record_finish(
    s: SubsModel,
    t: SubsModel,
    p: Seq<Variable>,
    r1: Variable,
    r2: Variable,
    f1: Seq<(Lowercase, Variable)>,
    f2: Seq<(Lowercase, Variable)>,
    other: Seq<(Lowercase, Variable)>,
    ext: Variable,
    chased: Seq<(Lowercase, Variable)>,
    end: Option<Variable>,
)
    requires
        s.wf(),
        t.wf(),
        r1 < s.len(),
        r2 < s.len(),
        s.coarsens_to(t),
        fields_below(f1, s.len()),
        fields_below(f2, s.len()),
        shared_fields_joined(s, f1, f2),
        model_chase_record(t, ext, map_union(insert_firsts(Seq::empty(), shared(f1, f2), 0), other), 4) == Some(
            (chased, end),
        ),
        forall|k: Lowercase| #[trigger] lookup(chased, k) == field_of(f1, f2, k),
    ensures
        model_unify_shared_fields(t, p, context_of(s, r1, r2), shared(f1, f2), other, ext, 5) is Some,
        ({
            let (u, _, o) = model_unify_shared_fields(t, p, context_of(s, r1, r2), shared(f1, f2), other, ext, 5)->Some_0;
            o.len() == 0 && u.equiv(r1, r2) && holds_fields_of(u, r1, f1, f2)
        }),
{
    let sh = shared(f1, f2);
    lemma_shared_unique(f1, f2);
    lemma_insert_firsts_len(Seq::<(Lowercase, Variable)>::empty(), sh, 0);
    lemma_shared_fields_joined(s, t, f1, f2);
    lemma_match_fields_of_equivalent(t, p, sh, 0, Seq::empty(), 4);
    let ctx = context_of(s, r1, r2);
    let new_ext = match end {
        None => crate::types::EMPTY_RECORD,
        Some(v) => v,
    };
    let d = merged(ctx, ContentModel::Structure(FlatModel::Record(chased, new_ext)));
    lemma_union_get(t, r1, r2, d);
}

/// Unifying the ends of two rows, each open or closed (of one class only
/// when closed), joins them into a class that is again open or closed.
proof fn lemma_row_ends_unify(s: SubsModel, p: Seq<Variable>, e1: Variable, e2: Variable, empty: FlatModel)
    requires
        s.wf(),
        e1 < s.len(),
        e2 < s.len(),
        empty == FlatModel::EmptyRecord || empty == FlatModel::EmptyTagUnion,
        s.get(e1).content is FlexVar || s.get(e1).content == ContentModel::Structure(empty),
        s.get(e2).content is FlexVar || s.get(e2).content == ContentModel::Structure(empty),
        s.equiv(e1, e2) ==> !(s.get(e1).content is FlexVar),
    ensures
        ({
            let r = model_unify_pool(s, p, e1, e2, 5);
            &&& r is Some
            &&& r->Some_0.1 == p
            &&& r->Some_0.2 == Seq::<Mismatch>::empty()
            &&& r->Some_0.0.wf()
            &&& r->Some_0.0.len() == s.len()
            &&& s.coarsens_to(r->Some_0.0)
            &&& (r->Some_0.0.get(e1).content is FlexVar || r->Some_0.0.get(e1).content == ContentModel::Structure(empty))
        }),
{
    if !s.equiv(e1, e2) {
        let ctx = context_of(s, e1, e2);
        let c = match s.get(e1).content {
            ContentModel::FlexVar(name) => match s.get(e2).content {
                ContentModel::FlexVar(None) => ContentModel::FlexVar(name),
                other => other,
            },
            _ => ContentModel::Structure(empty),
        };
        lemma_union(s, e1, e2, merged(ctx, c));
        let t = model_merge(s, ctx, c);
        if s.get(e1).content is FlexVar {
            assert(model_unify_context(s, p, ctx, 4) == Some((t, p, Seq::<Mismatch>::empty())));
        } else if s.get(e2).content is FlexVar {
            assert(model_unify_structure(s, p, ctx, empty, s.get(e2).content, 3) == Some((t, p, Seq::<Mismatch>::empty())));
            assert(model_unify_context(s, p, ctx, 4) == Some((t, p, Seq::<Mismatch>::empty())));
        } else {
            assert(model_unify_flat_type(s, p, ctx, empty, empty, 2) == Some((t, p, Seq::<Mismatch>::empty())));
            assert(model_unify_structure(s, p, ctx, empty, s.get(e2).content, 3) == Some((t, p, Seq::<Mismatch>::empty())));
            assert(model_unify_context(s, p, ctx, 4) == Some((t, p, Seq::<Mismatch>::empty())));
        }
    } else {
        crate::subs::lemma_coarsens_refl(s);
    }
}

/// Records with the same labels: their rows' ends are unified, then the
/// shared fields; the merged record has the fields of both.
proof fn lemma_record_same_labels(
    s: SubsModel,
    p: Seq<Variable>,
    r1: Variable,
    r2: Variable,
    f1: Seq<(Lowercase, Variable)>,
    e1: Variable,
    f2: Seq<(Lowercase, Variable)>,
    e2: Variable,
)
    requires
        record_pair(s, r1, r2, f1, e1, f2, e2),
        complement(f1, f2).len() == 0,
        complement(f2, f1).len() == 0,
    ensures
        record_step(s, p, r1, r2, f1, e1, f2, e2),
{
    lemma_record_pair_facts(s, r1, r2, f1, e1, f2, e2);
    lemma_row_ends_unify(s, p, e1, e2, FlatModel::EmptyRecord);
    let (sa, pa, oa) = model_unify_pool(s, p, e1, e2, 5)->Some_0;
    let m = insert_firsts(Seq::<(Lowercase, Variable)>::empty(), shared(f1, f2), 0);
    assert(map_union(m, Seq::<(Lowercase, Variable)>::empty()) == m);
    let end = if sa.get(e1).content is FlexVar {
        Some(e1)
    } else {
        None::<Variable>
    };
    assert(model_chase_record(sa, e1, m, 4) == Some((m, end)));
    assert forall|k: Lowercase| #[trigger] lookup(m, k) == field_of(f1, f2, k) by {
        assert(lookup(complement(f1, f2), k) is None);
        assert(lookup(complement(f2, f1), k) is None);
    }
    lemma_record_finish(s, sa, p, r1, r2, f1, f2, Seq::empty(), e1, m, end);
}

/// The second record has labels the first lacks: they go, as a new record
/// over the second's row, into the first's row; the merged record has the
/// fields of both.
proof fn lemma_record_second_has_more(
    s: SubsModel,
    p: Seq<Variable>,
    r1: Variable,
    r2: Variable,
    f1: Seq<(Lowercase, Variable)>,
    e1: Variable,
    f2: Seq<(Lowercase, Variable)>,
    e2: Variable,
)
    requires
        record_pair(s, r1, r2, f1, e1, f2, e2),
        complement(f1, f2).len() == 0,
        complement(f2, f1).len() > 0,
    ensures
        record_step(s, p, r1, r2, f1, e1, f2, e2),
{
    lemma_record_pair_facts(s, r1, r2, f1, e1, f2, e2);
    let ctx = context_of(s, r1, r2);
    let u2 = complement(f2, f1);
    let c_sub = ContentModel::Structure(FlatModel::Record(u2, e2));
    let (s1, p1, sub) = model_fresh(s, p, ctx, c_sub);
    lemma_content_below_mono(c_sub, s.len(), s.len() + 1);
    lemma_fresh(s, merged(ctx, c_sub));
    assert(s1.root(sub) == sub);
    assert(s1.root(e1) == s.root(e1));
    assert(s1.root(e2) == s.root(e2));
    let ctx1 = context_of(s1, e1, sub);
    if s.get(e1).content is FlexVar {
        lemma_content_below_mono(c_sub, s.len(), s1.len());
        lemma_union(s1, e1, sub, merged(ctx1, c_sub));
        lemma_union_get(s1, e1, sub, merged(ctx1, c_sub));
        let s2 = model_merge(s1, ctx1, c_sub);
        assert(model_unify_context(s1, p1, ctx1, 4) == Some((s2, p1, Seq::<Mismatch>::empty())));
        assert(model_unify_pool(s1, p1, e1, sub, 5) == Some((s2, p1, Seq::<Mismatch>::empty())));
        lemma_union_frame(s1, e1, sub, merged(ctx1, c_sub), e2);
        lemma_coarsens_trans(s, s1, s2);
        let m = insert_firsts(Seq::<(Lowercase, Variable)>::empty(), shared(f1, f2), 0);
        assert(map_union(m, Seq::<(Lowercase, Variable)>::empty()) == m);
        let chased = map_union(m, u2);
        let end = if s.get(e2).content is FlexVar {
            Some(e2)
        } else {
            None::<Variable>
        };
        assert(model_chase_record(s2, e2, chased, 3) == Some((chased, end)));
        assert(model_chase_record(s2, sub, m, 4) == Some((chased, end)));
        assert forall|k: Lowercase| #[trigger] lookup(chased, k) == field_of(f1, f2, k) by {
            lemma_lookup_union(m, u2, k);
            assert(lookup(complement(f1, f2), k) is None);
        }
        lemma_record_finish(s, s2, p1, r1, r2, f1, f2, Seq::empty(), sub, chased, end);
    } else {
        let empty = FlatModel::EmptyRecord;
        assert(model_unify_flat_type(s1, p1, ctx1, empty, FlatModel::Record(u2, e2), 2) == Some(
            (s1, p1, type_mismatch()),
        ));
        assert(model_unify_structure(s1, p1, ctx1, empty, c_sub, 3) == Some((s1, p1, type_mismatch())));
        assert(model_unify_context(s1, p1, ctx1, 4) == Some((s1, p1, type_mismatch())));
        assert(model_unify_pool(s1, p1, e1, sub, 5) == Some((s1, p1, type_mismatch())));
    }
}

/// The first record has labels the second lacks: they go, as a new record
/// over the first's row, into the second's row; the merged record has the
/// fields of both.
proof fn lemma_record_first_has_more(
    s: SubsModel,
    p: Seq<Variable>,
    r1: Variable,
    r2: Variable,
    f1: Seq<(Lowercase, Variable)>,
    e1: Variable,
    f2: Seq<(Lowercase, Variable)>,
    e2: Variable,
)
    requires
        record_pair(s, r1, r2, f1, e1, f2, e2),
        complement(f1, f2).len() > 0,
        complement(f2, f1).len() == 0,
    ensures
        record_step(s, p, r1, r2, f1, e1, f2, e2),
{
    lemma_record_pair_facts(s, r1, r2, f1, e1, f2, e2);
    let ctx = context_of(s, r1, r2);
    let u1 = complement(f1, f2);
    let ft = FlatModel::Record(u1, e1);
    let c_sub = ContentModel::Structure(ft);
    let (s1, p1, sub) = model_fresh(s, p, ctx, c_sub);
    lemma_content_below_mono(c_sub, s.len(), s.len() + 1);
    lemma_fresh(s, merged(ctx, c_sub));
    assert(s1.root(sub) == sub);
    assert(s1.root(e1) == s.root(e1));
    assert(s1.root(e2) == s.root(e2));
    let ctx1 = context_of(s1, sub, e2);
    if s.get(e2).content is FlexVar {
        lemma_content_below_mono(c_sub, s.len(), s1.len());
        lemma_union(s1, sub, e2, merged(ctx1, c_sub));
        lemma_union_get(s1, sub, e2, merged(ctx1, c_sub));
        let s2 = model_merge(s1, ctx1, c_sub);
        assert(model_unify_structure(s1, p1, ctx1, ft, s.get(e2).content, 3) == Some((s2, p1, Seq::<Mismatch>::empty())));
        assert(model_unify_context(s1, p1, ctx1, 4) == Some((s2, p1, Seq::<Mismatch>::empty())));
        assert(model_unify_pool(s1, p1, sub, e2, 5) == Some((s2, p1, Seq::<Mismatch>::empty())));
        lemma_union_frame(s1, sub, e2, merged(ctx1, c_sub), e1);
        lemma_coarsens_trans(s, s1, s2);
        let m = insert_firsts(Seq::<(Lowercase, Variable)>::empty(), shared(f1, f2), 0);
        assert(map_union(m, Seq::<(Lowercase, Variable)>::empty()) == m);
        let chased = map_union(m, u1);
        let end = if s.get(e1).content is FlexVar {
            Some(e1)
        } else {
            None::<Variable>
        };
        assert(model_chase_record(s2, e1, chased, 3) == Some((chased, end)));
        assert(model_chase_record(s2, sub, m, 4) == Some((chased, end)));
        assert forall|k: Lowercase| #[trigger] lookup(chased, k) == field_of(f1, f2, k) by {
            lemma_lookup_union(m, u1, k);
            assert(lookup(complement(f2, f1), k) is None);
        }
        lemma_record_finish(s, s2, p1, r1, r2, f1, f2, Seq::empty(), sub, chased, end);
    } else {
        let empty = FlatModel::EmptyRecord;
        assert(model_unify_flat_type(s1, p1, ctx1, ft, empty, 2) == Some((s1, p1, type_mismatch())));
        assert(model_unify_structure(s1, p1, ctx1, ft, s.get(e2).content, 3) == Some((s1, p1, type_mismatch())));
        assert(model_unify_context(s1, p1, ctx1, 4) == Some((s1, p1, type_mismatch())));
        assert(model_unify_pool(s1, p1, sub, e2, 5) == Some((s1, p1, type_mismatch())));
    }
}

/// Each record has labels the other lacks: both rows become the other's own
/// fields over one fresh row; the merged record has the fields of both.
proof fn lemma_record_both_have_more(
    s: SubsModel,
    p: Seq<Variable>,
    r1: Variable,
    r2: Variable,
    f1: Seq<(Lowercase, Variable)>,
    e1: Variable,
    f2: Seq<(Lowercase, Variable)>,
    e2: Variable,
)
    requires
        record_pair(s, r1, r2, f1, e1, f2, e2),
        complement(f1, f2).len() > 0,
        complement(f2, f1).len() > 0,
    ensures
        record_step(s, p, r1, r2, f1, e1, f2, e2),
{
    lemma_record_pair_facts(s, r1, r2, f1, e1, f2, e2);
    let ctx = context_of(s, r1, r2);
    let u1 = complement(f1, f2);
    let u2 = complement(f2, f1);
    let other = map_union(u1, u2);
    let c_ext = ContentModel::FlexVar(None);
    let (s1, p1, ext) = model_fresh(s, p, ctx, c_ext);
    lemma_fresh(s, merged(ctx, c_ext));
    let ft1 = FlatModel::Record(u1, ext);
    let c1 = ContentModel::Structure(ft1);
    lemma_content_below_mono(ContentModel::Structure(FlatModel::Record(u1, e1)), s.len(), s1.len() + 1);
    let (s2, p2, sub1) = model_fresh(s1, p1, ctx, c1);
    lemma_fresh(s1, merged(ctx, c1));
    let c2 = ContentModel::Structure(FlatModel::Record(u2, ext));
    lemma_content_below_mono(ContentModel::Structure(FlatModel::Record(u2, e2)), s.len(), s2.len() + 1);
    let (s3, p3, sub2) = model_fresh(s2, p2, ctx, c2);
    lemma_fresh(s2, merged(ctx, c2));
    lemma_coarsens_trans(s, s1, s2);
    lemma_coarsens_trans(s, s2, s3);
    assert(s3.root(sub2) == sub2);
    assert(s3.root(sub1) == sub1);
    assert(s3.root(ext) == ext);
    assert(s3.root(e1) == s.root(e1));
    assert(s3.root(e2) == s.root(e2));
    let ctx3 = context_of(s3, e1, sub2);
    if s.get(e1).content is FlexVar {
        lemma_content_below_mono(c2, s3.len(), s3.len());
        lemma_union(s3, e1, sub2, merged(ctx3, c2));
        let s4 = model_merge(s3, ctx3, c2);
        assert(model_unify_context(s3, p3, ctx3, 4) == Some((s4, p3, Seq::<Mismatch>::empty())));
        assert(model_unify_pool(s3, p3, e1, sub2, 5) == Some((s4, p3, Seq::<Mismatch>::empty())));
        lemma_union_frame(s3, e1, sub2, merged(ctx3, c2), e2);
        lemma_union_frame(s3, e1, sub2, merged(ctx3, c2), sub1);
        lemma_union_frame(s3, e1, sub2, merged(ctx3, c2), ext);
        let ctx4 = context_of(s4, sub1, e2);
        if s.get(e2).content is FlexVar {
            lemma_content_below_mono(c1, s2.len(), s4.len());
            lemma_union(s4, sub1, e2, merged(ctx4, c1));
            let s5 = model_merge(s4, ctx4, c1);
            assert(model_unify_structure(s4, p3, ctx4, ft1, s.get(e2).content, 3) == Some(
                (s5, p3, Seq::<Mismatch>::empty()),
            ));
            assert(model_unify_context(s4, p3, ctx4, 4) == Some((s5, p3, Seq::<Mismatch>::empty())));
            assert(model_unify_pool(s4, p3, sub1, e2, 5) == Some((s5, p3, Seq::<Mismatch>::empty())));
            lemma_union_frame(s4, sub1, e2, merged(ctx4, c1), ext);
            lemma_coarsens_trans(s, s3, s4);
            lemma_coarsens_trans(s, s4, s5);
            let m = insert_firsts(Seq::<(Lowercase, Variable)>::empty(), shared(f1, f2), 0);
            let chased = map_union(m, other);
            assert(model_chase_record(s5, ext, chased, 4) == Some((chased, Some(ext))));
            lemma_union_unique(u1, u2);
            assert forall|k: Lowercase| #[trigger] lookup(chased, k) == field_of(f1, f2, k) by {
                lemma_lookup_union(m, other, k);
                lemma_lookup_union(u1, u2, k);
            }
            lemma_record_finish(s, s5, p3, r1, r2, f1, f2, other, ext, chased, Some(ext));
        } else {
            let empty = FlatModel::EmptyRecord;
            assert(model_unify_flat_type(s4, p3, ctx4, ft1, empty, 2) == Some((s4, p3, type_mismatch())));
            assert(model_unify_structure(s4, p3, ctx4, ft1, s.get(e2).content, 3) == Some(
                (s4, p3, type_mismatch()),
            ));
            assert(model_unify_context(s4, p3, ctx4, 4) == Some((s4, p3, type_mismatch())));
            assert(model_unify_pool(s4, p3, sub1, e2, 5) == Some((s4, p3, type_mismatch())));
        }
    } else {
        let empty = FlatModel::EmptyRecord;
        let ft2 = FlatModel::Record(u2, ext);
        assert(model_unify_flat_type(s3, p3, ctx3, empty, ft2, 2) == Some((s3, p3, type_mismatch())));
        assert(model_unify_structure(s3, p3, ctx3, empty, c2, 3) == Some((s3, p3, type_mismatch())));
        assert(model_unify_context(s3, p3, ctx3, 4) == Some((s3, p3, type_mismatch())));
        assert(model_unify_pool(s3, p3, e1, sub2, 5) == Some((s3, p3, type_mismatch())));
    }
}

/// Two records whose rows each end open or closed, and whose shared labels
/// have variables of one class already, unify; when no mismatch is found,
/// the merged class is a record holding every field of either record, each
/// label with its variable in the first record if it has one and in the
/// second otherwise, and no other label.  Closed records with different
/// labels, and a closed record against one with labels it lacks, fail.
pub proof fn lemma_records_keep_their_fields(
    s: SubsModel,
    p: Seq<Variable>,
    r1: Variable,
    r2: Variable,
    f1: Seq<(Lowercase, Variable)>,
    e1: Variable,
    f2: Seq<(Lowercase, Variable)>,
    e2: Variable,
)
    requires
        record_pair(s, r1, r2, f1, e1, f2, e2),
    ensures
        unify_pool_returns(s, p, r1, r2),
        ({
            let (t, _, o) = unify_pool_result(s, p, r1, r2);
            &&& o.len() == 0 ==> t.equiv(r1, r2) && holds_fields_of(t, r1, f1, f2)
            &&& o.len() == 0 <==> rows_take_the_rest(complement(f1, f2).len() == 0, complement(f2, f1).len() == 0, s.get(e1).content, s.get(e2).content)
        }),
{
    let ctx = context_of(s, r1, r2);
    if complement(f1, f2).len() == 0 {
        if complement(f2, f1).len() == 0 {
            lemma_record_same_labels(s, p, r1, r2, f1, e1, f2, e2);
        } else {
            lemma_record_second_has_more(s, p, r1, r2, f1, e1, f2, e2);
        }
    } else if complement(f2, f1).len() == 0 {
        lemma_record_first_has_more(s, p, r1, r2, f1, e1, f2, e2);
    } else {
        lemma_record_both_have_more(s, p, r1, r2, f1, e1, f2, e2);
    }
    let l = FlatModel::Record(f1, e1);
    let r = FlatModel::Record(f2, e2);
    assert(model_gather_fields(s, f1, e1, 6) == Some((f1, e1)));
    assert(model_gather_fields(s, f2, e2, 6) == Some((f2, e2)));
    let target = model_unify_record(s, p, ctx, f1, e1, f2, e2, 6);
    assert(model_unify_flat_type(s, p, ctx, l, r, 7) == target);
    assert(model_unify_structure(s, p, ctx, l, ContentModel::Structure(r), 8) == target);
    assert(model_unify_context(s, p, ctx, 9) == target);
    assert(model_unify_pool(s, p, r1, r2, 10) == target);
    lemma_unify_pool_result(s, p, r1, r2, 10);
}

/// A tag's payload in the merge of two tag unions: its payload in the first
/// if it has one, its payload in the second otherwise.
pub open spec fn tag_of(
    t1: Seq<(TagName, Seq<Variable>)>,
    t2: Seq<(TagName, Seq<Variable>)>,
    k: TagName,
) -> Option<Seq<Variable>> {
    if lookup(t1, k) is Some {
        lookup(t1, k)
    } else {
        lookup(t2, k)
    }
}

/// The class of `r` is a (non-recursive) tag union that maps every tag as
/// `tag_of` does.
pub open spec fn holds_tags_of(
    t: SubsModel,
    r: Variable,
    t1: Seq<(TagName, Seq<Variable>)>,
    t2: Seq<(TagName, Seq<Variable>)>,
) -> bool {
    &&& t.get(r).content is Structure
    &&& t.get(r).content->Structure_0 is TagUnion
    &&& forall|k: TagName| #[trigger] lookup(t.get(r).content->Structure_0->TagUnion_0, k) == tag_of(t1, t2, k)
}

/// Tags that both unions hold have payloads of one length whose variables
/// are pairwise of one class.
pub open spec fn shared_tags_joined(
    s: SubsModel,
    t1: Seq<(TagName, Seq<Variable>)>,
    t2: Seq<(TagName, Seq<Variable>)>,
) -> bool {
    forall|k: TagName, x: Seq<Variable>, y: Seq<Variable>|
        #[trigger] t1.contains((k, x)) && #[trigger] t2.contains((k, y)) ==> x.len() == y.len() && forall|j: int|
            0 <= j < x.len() ==> s.equiv(#[trigger] x[j], y[j])
}

/// Unifying two payloads whose variables are pairwise of one class changes
/// nothing and keeps every variable of the first.
proof fn lemma_match_vars_of_equivalent(
    s: SubsModel,
    p: Seq<Variable>,
    x: Seq<Variable>,
    y: Seq<Variable>,
    i: int,
    fuel: nat,
)
    requires
        fuel >= 2,
        0 <= i <= x.len(),
        x.len() == y.len(),
        forall|j: int| 0 <= j < x.len() ==> s.equiv(#[trigger] x[j], y[j]),
    ensures
        model_match_vars(s, p, x, y, i, x.take(i), fuel) == Some((s, p, x)),
    decreases x.len() - i,
{
    if i < x.len() {
        assert(s.equiv(x[i], y[i]));
        assert(model_unify_pool(s, p, x[i], y[i], (fuel - 1) as nat) == Some((s, p, Seq::<Mismatch>::empty())));
        assert(x.take(i).push(x[i]) =~= x.take(i + 1));
        lemma_match_vars_of_equivalent(s, p, x, y, i + 1, fuel);
    } else {
        assert(x.take(i) =~= x);
    }
}

/// Unifying the payloads of shared tags that match pairwise already changes
/// nothing, finds nothing, and keeps the first payload of each.
proof fn lemma_match_tags_of_equivalent(
    s: SubsModel,
    p: Seq<Variable>,
    sh: Seq<(TagName, (Seq<Variable>, Seq<Variable>))>,
    i: int,
    acc: Seq<(TagName, Seq<Variable>)>,
    fuel: nat,
)
    requires
        fuel >= 3,
        0 <= i <= sh.len(),
        forall|j: int| i <= j < sh.len() ==> (#[trigger] sh[j]).1.0.len() == sh[j].1.1.len() && forall|q: int|
            0 <= q < sh[j].1.0.len() ==> s.equiv(#[trigger] sh[j].1.0[q], sh[j].1.1[q]),
    ensures
        model_match_tags(s, p, sh, i, acc, fuel) == Some((s, p, insert_firsts(acc, sh, i))),
    decreases sh.len() - i,
{
    if i < sh.len() {
        let (name, (actual, expected)) = sh[i];
        assert(sh[i].1.0.len() == sh[i].1.1.len());
        assert(actual.take(0) =~= Seq::<Variable>::empty());
        lemma_match_vars_of_equivalent(s, p, actual, expected, 0, (fuel - 1) as nat);
        lemma_match_tags_of_equivalent(s, p, sh, i + 1, crate::maps::map_insert(acc, name, actual), fuel);
    }
}

/// The payloads of each shared tag match pairwise in any store that
/// coarsens `s`.
proof fn lemma_shared_tags_joined(
    s: SubsModel,
    t: SubsModel,
    t1: Seq<(TagName, Seq<Variable>)>,
    t2: Seq<(TagName, Seq<Variable>)>,
)
    requires
        s.coarsens_to(t),
        tags_below(t1, s.len()),
        tags_below(t2, s.len()),
        shared_tags_joined(s, t1, t2),
    ensures
        forall|j: int| 0 <= j < shared(t1, t2).len() ==> (#[trigger] shared(t1, t2)[j]).1.0.len() == shared(t1, t2)[j].1.1.len()
            && forall|q: int| 0 <= q < shared(t1, t2)[j].1.0.len() ==> t.equiv(#[trigger] shared(t1, t2)[j].1.0[q], shared(t1, t2)[j].1.1[q]),
{
    let sh = shared(t1, t2);
    lemma_shared_members(t1, t2);
    assert forall|j: int| 0 <= j < sh.len() implies (#[trigger] sh[j]).1.0.len() == sh[j].1.1.len() && forall|q: int|
        0 <= q < sh[j].1.0.len() ==> t.equiv(#[trigger] sh[j].1.0[q], sh[j].1.1[q]) by {
        let x = sh[j];
        assert(sh.contains(x));
        assert(t1.contains((x.0, x.1.0)) && t2.contains((x.0, x.1.1)));
        let q1 = choose|q: int| 0 <= q < t1.len() && t1[q] == (x.0, x.1.0);
        let q2 = choose|q: int| 0 <= q < t2.len() && t2[q] == (x.0, x.1.1);
        assert(list_below(s.len())(t1[q1].1));
        assert(list_below(s.len())(t2[q2].1));
        assert forall|q: int| 0 <= q < x.1.0.len() implies t.equiv(#[trigger] x.1.0[q], x.1.1[q]) by {
            assert(s.equiv(x.1.0[q], x.1.1[q]));
            assert(x.1.0[q] < s.len() && x.1.1[q] < s.len());
        }
    }
}

/// A tag row ends in a flexible variable (open) or the empty tag union (closed).
pub open spec fn tag_row_end(c: ContentModel) -> bool {
    c is FlexVar || c == ContentModel::Structure(FlatModel::EmptyTagUnion)
}

/// What the tag-union laws assume: two tag unions of distinct classes whose
/// rows each end open or closed (two ends of one class only when closed),
/// each holding a tag once, whose shared tags have payloads that match
/// pairwise.
pub open spec fn tag_union_pair(
    s: SubsModel,
    r1: Variable,
    r2: Variable,
    t1: Seq<(TagName, Seq<Variable>)>,
    e1: Variable,
    t2: Seq<(TagName, Seq<Variable>)>,
    e2: Variable,
) -> bool {
    &&& s.wf()
    &&& r1 < s.len()
    &&& r2 < s.len()
    &&& s.len() + 3 < usize::MAX
    &&& !s.equiv(r1, r2)
    &&& s.get(r1).content == ContentModel::Structure(FlatModel::TagUnion(t1, e1))
    &&& s.get(r2).content == ContentModel::Structure(FlatModel::TagUnion(t2, e2))
    &&& unique_keys(t1)
    &&& unique_keys(t2)
    &&& tag_row_end(s.get(e1).content)
    &&& tag_row_end(s.get(e2).content)
    &&& s.equiv(e1, e2) ==> !(s.get(e1).content is FlexVar)
    &&& shared_tags_joined(s, t1, t2)
}

/// The result that the tag-union laws are about, at a fuel that suffices.
pub open spec fn tag_step(
    s: SubsModel,
    p: Seq<Variable>,
    r1: Variable,
    r2: Variable,
    t1: Seq<(TagName, Seq<Variable>)>,
    e1: Variable,
    t2: Seq<(TagName, Seq<Variable>)>,
    e2: Variable,
) -> bool {
    &&& model_unify_tag_exts(s, p, context_of(s, r1, r2), t1, e1, t2, e2, None, 6) is Some
    &&& ({
        let (t, _, o) = model_unify_tag_exts(s, p, context_of(s, r1, r2), t1, e1, t2, e2, None, 6)->Some_0;
        &&& o.len() == 0 ==> t.equiv(r1, r2) && holds_tags_of(t, r1, t1, t2)
        &&& o.len() == 0 <==> rows_take_the_rest(complement(t1, t2).len() == 0, complement(t2, t1).len() == 0, s.get(e1).content, s.get(e2).content)
    })
}

/// Facts every branch uses.
proof fn lemma_tag_union_pair_facts(
    s: SubsModel,
    r1: Variable,
    r2: Variable,
    t1: Seq<(TagName, Seq<Variable>)>,
    e1: Variable,
    t2: Seq<(TagName, Seq<Variable>)>,
    e2: Variable,
)
    requires
        tag_union_pair(s, r1, r2, t1, e1, t2, e2),
    ensures
        tags_below(t1, s.len()),
        tags_below(t2, s.len()),
        e1 < s.len(),
        e2 < s.len(),
        tags_below(complement(t1, t2), s.len()),
        tags_below(complement(t2, t1), s.len()),
        unique_keys(complement(t1, t2)),
        unique_keys(complement(t2, t1)),
        forall|k: TagName| #[trigger] lookup(complement(t1, t2), k) == if lookup(t2, k) is Some {
            None
        } else {
            lookup(t1, k)
        },
        forall|k: TagName| #[trigger] lookup(complement(t2, t1), k) == if lookup(t1, k) is Some {
            None
        } else {
            lookup(t2, k)
        },
        forall|k: TagName| #[trigger] lookup(insert_firsts(Seq::empty(), shared(t1, t2), 0), k) == if lookup(t1, k) is Some
            && lookup(t2, k) is Some {
            lookup(t1, k)
        } else {
            None
        },
{
    lemma_get_below(s, r1);
    lemma_get_below(s, r2);
    lemma_complement_all(t1, t2, list_below(s.len()));
    lemma_complement_all(t2, t1, list_below(s.len()));
    lemma_complement_unique(t1, t2);
    lemma_complement_unique(t2, t1);
    lemma_shared_unique(t1, t2);
    assert forall|k: TagName| #[trigger] lookup(complement(t1, t2), k) == if lookup(t2, k) is Some {
        None
    } else {
        lookup(t1, k)
    } by {
        lemma_lookup_complement(t1, t2, k);
    }
    assert forall|k: TagName| #[trigger] lookup(complement(t2, t1), k) == if lookup(t1, k) is Some {
        None
    } else {
        lookup(t2, k)
    } by {
        lemma_lookup_complement(t2, t1, k);
    }
    assert forall|k: TagName| #[trigger] lookup(insert_firsts(Seq::empty(), shared(t1, t2), 0), k) == if lookup(t1, k)
        is Some && lookup(t2, k) is Some {
        lookup(t1, k)
    } else {
        None
    } by {
        lemma_lookup_insert_firsts(Seq::<(TagName, Seq<Variable>)>::empty(), shared(t1, t2), 0, k);
        lemma_lookup_shared(t1, t2, k);
    }
}

/// The end of merging two tag unions: the shared payloads are unified (they
/// match already), the row from `ext` is chased, and the unions' classes
/// merge into a union of the tags found.
proof fn lemma_tag_finish(
    s: SubsModel,
    t: SubsModel,
    p: Seq<Variable>,
    r1: Variable,
    r2: Variable,
    t1: Seq<(TagName, Seq<Variable>)>,
    t2: Seq<(TagName, Seq<Variable>)>,
    other: Seq<(TagName, Seq<Variable>)>,
    ext: Variable,
    chased: Seq<(TagName, Seq<Variable>)>,
    end: Option<Variable>,
    fuel: nat,
)
    requires
        fuel >= 4,
        s.wf(),
        t.wf(),
        r1 < s.len(),
        r2 < s.len(),
        s.coarsens_to(t),
        tags_below(t1, s.len()),
        tags_below(t2, s.len()),
        shared_tags_joined(s, t1, t2),
        model_chase_tags(t, ext, Seq::empty(), (fuel - 1) as nat) == Some((chased, end)),
        forall|k: TagName| #[trigger] lookup(
            map_union(map_union(insert_firsts(Seq::empty(), shared(t1, t2), 0), other), chased),
            k,
        ) == tag_of(t1, t2, k),
    ensures
        model_unify_shared_tags(t, p, context_of(s, r1, r2), shared(t1, t2), other, ext, None, fuel) is Some,
        ({
            let (u, _, o) = model_unify_shared_tags(t, p, context_of(s, r1, r2), shared(t1, t2), other, ext, None, fuel)->Some_0;
            o.len() == 0 && u.equiv(r1, r2) && holds_tags_of(u, r1, t1, t2)
        }),
{
    let sh = shared(t1, t2);
    lemma_shared_unique(t1, t2);
    lemma_insert_firsts_len(Seq::<(TagName, Seq<Variable>)>::empty(), sh, 0);
    lemma_shared_tags_joined(s, t, t1, t2);
    lemma_match_tags_of_equivalent(t, p, sh, 0, Seq::empty(), (fuel - 1) as nat);
    let ctx = context_of(s, r1, r2);
    let new_ext = match end {
        None => crate::types::EMPTY_TAG_UNION,
        Some(v) => v,
    };
    let m = insert_firsts(Seq::<(TagName, Seq<Variable>)>::empty(), sh, 0);
    let new_tags = map_union(map_union(m, other), chased);
    let d = merged(ctx, ContentModel::Structure(FlatModel::TagUnion(new_tags, new_ext)));
    lemma_union_get(t, r1, r2, d);
}

/// Tag unions with the same tags: the rows' ends are unified, then the
/// shared payloads; the merged union has the tags of both.
proof fn lemma_tags_same(
    s: SubsModel,
    p: Seq<Variable>,
    r1: Variable,
    r2: Variable,
    t1: Seq<(TagName, Seq<Variable>)>,
    e1: Variable,
    t2: Seq<(TagName, Seq<Variable>)>,
    e2: Variable,
)
    requires
        tag_union_pair(s, r1, r2, t1, e1, t2, e2),
        complement(t1, t2).len() == 0,
        complement(t2, t1).len() == 0,
    ensures
        tag_step(s, p, r1, r2, t1, e1, t2, e2),
{
    lemma_tag_union_pair_facts(s, r1, r2, t1, e1, t2, e2);
    lemma_row_ends_unify(s, p, e1, e2, FlatModel::EmptyTagUnion);
    let (sa, pa, oa) = model_unify_pool(s, p, e1, e2, 5)->Some_0;
    let m = insert_firsts(Seq::<(TagName, Seq<Variable>)>::empty(), shared(t1, t2), 0);
    let none = Seq::<(TagName, Seq<Variable>)>::empty();
    assert(map_union(m, none) == m);
    assert(map_union(map_union(m, none), none) == m);
    let end = if sa.get(e1).content is FlexVar {
        Some(e1)
    } else {
        None::<Variable>
    };
    assert(model_chase_tags(sa, e1, none, 4) == Some((none, end)));
    assert forall|k: TagName| #[trigger] lookup(map_union(map_union(m, none), none), k) == tag_of(t1, t2, k) by {
        assert(lookup(complement(t1, t2), k) is None);
        assert(lookup(complement(t2, t1), k) is None);
    }
    lemma_tag_finish(s, sa, p, r1, r2, t1, t2, none, e1, none, end, 5);
}

/// The second union has tags the first lacks: they go, as a new union over
/// the second's row, into the first's row; the merged union has the tags of
/// both.
proof fn lemma_tags_second_has_more(
    s: SubsModel,
    p: Seq<Variable>,
    r1: Variable,
    r2: Variable,
    t1: Seq<(TagName, Seq<Variable>)>,
    e1: Variable,
    t2: Seq<(TagName, Seq<Variable>)>,
    e2: Variable,
)
    requires
        tag_union_pair(s, r1, r2, t1, e1, t2, e2),
        complement(t1, t2).len() == 0,
        complement(t2, t1).len() > 0,
    ensures
        tag_step(s, p, r1, r2, t1, e1, t2, e2),
{
    lemma_tag_union_pair_facts(s, r1, r2, t1, e1, t2, e2);
    let ctx = context_of(s, r1, r2);
    let u2 = complement(t2, t1);
    let c_sub = ContentModel::Structure(FlatModel::TagUnion(u2, e2));
    let (s1, p1, sub) = model_fresh(s, p, ctx, c_sub);
    lemma_content_below_mono(c_sub, s.len(), s.len() + 1);
    lemma_fresh(s, merged(ctx, c_sub));
    assert(s1.root(sub) == sub);
    assert(s1.root(e1) == s.root(e1));
    assert(s1.root(e2) == s.root(e2));
    let ctx1 = context_of(s1, e1, sub);
    let none = Seq::<(TagName, Seq<Variable>)>::empty();
    if s.get(e1).content is FlexVar {
        lemma_content_below_mono(c_sub, s.len(), s1.len());
        lemma_union(s1, e1, sub, merged(ctx1, c_sub));
        lemma_union_get(s1, e1, sub, merged(ctx1, c_sub));
        let s2 = model_merge(s1, ctx1, c_sub);
        assert(model_unify_context(s1, p1, ctx1, 4) == Some((s2, p1, Seq::<Mismatch>::empty())));
        assert(model_unify_pool(s1, p1, e1, sub, 5) == Some((s2, p1, Seq::<Mismatch>::empty())));
        lemma_union_frame(s1, e1, sub, merged(ctx1, c_sub), e2);
        lemma_coarsens_trans(s, s1, s2);
        let m = insert_firsts(none, shared(t1, t2), 0);
        assert(map_union(m, none) == m);
        let chased = none + u2;
        assert(chased =~= u2);
        let end = if s.get(e2).content is FlexVar {
            Some(e2)
        } else {
            None::<Variable>
        };
        assert(model_chase_tags(s2, e2, chased, 3) == Some((chased, end)));
        assert(model_chase_tags(s2, sub, none, 4) == Some((chased, end)));
        assert forall|k: TagName| #[trigger] lookup(map_union(map_union(m, none), chased), k) == tag_of(t1, t2, k) by {
            lemma_lookup_union(m, u2, k);
            assert(lookup(complement(t1, t2), k) is None);
        }
        lemma_tag_finish(s, s2, p1, r1, r2, t1, t2, none, sub, chased, end, 5);
    } else {
        let empty = FlatModel::EmptyTagUnion;
        assert(model_unify_flat_type(s1, p1, ctx1, empty, FlatModel::TagUnion(u2, e2), 2) == Some(
            (s1, p1, type_mismatch()),
        ));
        assert(model_unify_structure(s1, p1, ctx1, empty, c_sub, 3) == Some((s1, p1, type_mismatch())));
        assert(model_unify_context(s1, p1, ctx1, 4) == Some((s1, p1, type_mismatch())));
        assert(model_unify_pool(s1, p1, e1, sub, 5) == Some((s1, p1, type_mismatch())));
    }
}

/// The first union has tags the second lacks: they go, as a new union over
/// the first's row, into the second's row; the merged union has the tags of
/// both.
proof fn lemma_tags_first_has_more(
    s: SubsModel,
    p: Seq<Variable>,
    r1: Variable,
    r2: Variable,
    t1: Seq<(TagName, Seq<Variable>)>,
    e1: Variable,
    t2: Seq<(TagName, Seq<Variable>)>,
    e2: Variable,
)
    requires
        tag_union_pair(s, r1, r2, t1, e1, t2, e2),
        complement(t1, t2).len() > 0,
        complement(t2, t1).len() == 0,
    ensures
        tag_step(s, p, r1, r2, t1, e1, t2, e2),
{
    lemma_tag_union_pair_facts(s, r1, r2, t1, e1, t2, e2);
    let ctx = context_of(s, r1, r2);
    let u1 = complement(t1, t2);
    let ft = FlatModel::TagUnion(u1, e1);
    let c_sub = ContentModel::Structure(ft);
    let (s1, p1, sub) = model_fresh(s, p, ctx, c_sub);
    lemma_content_below_mono(c_sub, s.len(), s.len() + 1);
    lemma_fresh(s, merged(ctx, c_sub));
    assert(s1.root(sub) == sub);
    assert(s1.root(e1) == s.root(e1));
    assert(s1.root(e2) == s.root(e2));
    let ctx1 = context_of(s1, sub, e2);
    let none = Seq::<(TagName, Seq<Variable>)>::empty();
    if s.get(e2).content is FlexVar {
        lemma_content_below_mono(c_sub, s.len(), s1.len());
        lemma_union(s1, sub, e2, merged(ctx1, c_sub));
        lemma_union_get(s1, sub, e2, merged(ctx1, c_sub));
        let s2 = model_merge(s1, ctx1, c_sub);
        assert(model_unify_structure(s1, p1, ctx1, ft, s.get(e2).content, 3) == Some((s2, p1, Seq::<Mismatch>::empty())));
        assert(model_unify_context(s1, p1, ctx1, 4) == Some((s2, p1, Seq::<Mismatch>::empty())));
        assert(model_unify_pool(s1, p1, sub, e2, 5) == Some((s2, p1, Seq::<Mismatch>::empty())));
        lemma_union_frame(s1, sub, e2, merged(ctx1, c_sub), e1);
        lemma_coarsens_trans(s, s1, s2);
        let m = insert_firsts(none, shared(t1, t2), 0);
        assert(map_union(m, none) == m);
        let chased = none + u1;
        assert(chased =~= u1);
        let end = if s.get(e1).content is FlexVar {
            Some(e1)
        } else {
            None::<Variable>
        };
        assert(model_chase_tags(s2, e1, chased, 3) == Some((chased, end)));
        assert(model_chase_tags(s2, sub, none, 4) == Some((chased, end)));
        assert forall|k: TagName| #[trigger] lookup(map_union(map_union(m, none), chased), k) == tag_of(t1, t2, k) by {
            lemma_lookup_union(m, u1, k);
            assert(lookup(complement(t2, t1), k) is None);
        }
        lemma_tag_finish(s, s2, p1, r1, r2, t1, t2, none, sub, chased, end, 5);
    } else {
        let empty = FlatModel::EmptyTagUnion;
        assert(model_unify_flat_type(s1, p1, ctx1, ft, empty, 2) == Some((s1, p1, type_mismatch())));
        assert(model_unify_structure(s1, p1, ctx1, ft, s.get(e2).content, 3) == Some((s1, p1, type_mismatch())));
        assert(model_unify_context(s1, p1, ctx1, 4) == Some((s1, p1, type_mismatch())));
        assert(model_unify_pool(s1, p1, sub, e2, 5) == Some((s1, p1, type_mismatch())));
    }
}

/// Each union has tags the other lacks: both rows become the other's own
/// tags over one fresh row; the merged union has the tags of both.
proof fn lemma_tags_both_have_more(
    s: SubsModel,
    p: Seq<Variable>,
    r1: Variable,
    r2: Variable,
    t1: Seq<(TagName, Seq<Variable>)>,
    e1: Variable,
    t2: Seq<(TagName, Seq<Variable>)>,
    e2: Variable,
)
    requires
        tag_union_pair(s, r1, r2, t1, e1, t2, e2),
        complement(t1, t2).len() > 0,
        complement(t2, t1).len() > 0,
    ensures
        tag_step(s, p, r1, r2, t1, e1, t2, e2),
{
    lemma_tag_union_pair_facts(s, r1, r2, t1, e1, t2, e2);
    let ctx = context_of(s, r1, r2);
    let u1 = complement(t1, t2);
    let u2 = complement(t2, t1);
    let sh = shared(t1, t2);
    let other = map_union(u1, u2);
    let none = Seq::<(TagName, Seq<Variable>)>::empty();
    let c_ext = ContentModel::FlexVar(None);
    let (s1, p1, ext) = model_fresh(s, p, ctx, c_ext);
    lemma_fresh(s, merged(ctx, c_ext));
    let ft1 = FlatModel::TagUnion(u1, ext);
    let c1 = ContentModel::Structure(ft1);
    lemma_content_below_mono(ContentModel::Structure(FlatModel::TagUnion(u1, e1)), s.len(), s1.len() + 1);
    let (s2, p2, sub1) = model_fresh(s1, p1, ctx, c1);
    lemma_fresh(s1, merged(ctx, c1));
    let ft2 = FlatModel::TagUnion(u2, ext);
    let c2 = ContentModel::Structure(ft2);
    lemma_content_below_mono(ContentModel::Structure(FlatModel::TagUnion(u2, e2)), s.len(), s2.len() + 1);
    let (s3, p3, sub2) = model_fresh(s2, p2, ctx, c2);
    lemma_fresh(s2, merged(ctx, c2));
    lemma_coarsens_trans(s, s1, s2);
    lemma_coarsens_trans(s, s2, s3);
    assert(s3.root(sub2) == sub2);
    assert(s3.root(sub1) == sub1);
    assert(s3.root(ext) == ext);
    assert(s3.root(e1) == s.root(e1));
    assert(s3.root(e2) == s.root(e2));
    let ctx3 = context_of(s3, e1, sub2);
    let target = model_unify_split_tags(s, p, ctx, sh, u1, e1, u2, e2, None, 5);
    assert(model_unify_tag_exts(s, p, ctx, t1, e1, t2, e2, None, 6) == target);
    if s.get(e1).content is FlexVar {
        lemma_union(s3, e1, sub2, merged(ctx3, c2));
        let s4 = model_merge(s3, ctx3, c2);
        assert(model_unify_context(s3, p3, ctx3, 3) == Some((s4, p3, Seq::<Mismatch>::empty())));
        assert(model_unify_pool(s3, p3, e1, sub2, 4) == Some((s4, p3, Seq::<Mismatch>::empty())));
        lemma_union_frame(s3, e1, sub2, merged(ctx3, c2), e2);
        lemma_union_frame(s3, e1, sub2, merged(ctx3, c2), sub1);
        lemma_union_frame(s3, e1, sub2, merged(ctx3, c2), ext);
        let ctx4 = context_of(s4, sub1, e2);
        if s.get(e2).content is FlexVar {
            lemma_content_below_mono(c1, s2.len(), s4.len());
            lemma_union(s4, sub1, e2, merged(ctx4, c1));
            let s5 = model_merge(s4, ctx4, c1);
            assert(model_unify_structure(s4, p3, ctx4, ft1, s.get(e2).content, 2) == Some(
                (s5, p3, Seq::<Mismatch>::empty()),
            ));
            assert(model_unify_context(s4, p3, ctx4, 3) == Some((s5, p3, Seq::<Mismatch>::empty())));
            assert(model_unify_pool(s4, p3, sub1, e2, 4) == Some((s5, p3, Seq::<Mismatch>::empty())));
            lemma_union_frame(s4, sub1, e2, merged(ctx4, c1), ext);
            lemma_coarsens_trans(s, s3, s4);
            lemma_coarsens_trans(s, s4, s5);
            let m = insert_firsts(none, sh, 0);
            assert(model_chase_tags(s5, ext, none, 3) == Some((none, Some(ext))));
            assert(map_union(map_union(m, other), none) == map_union(m, other));
            lemma_union_unique(u1, u2);
            assert forall|k: TagName| #[trigger] lookup(map_union(map_union(m, other), none), k) == tag_of(t1, t2, k) by {
                lemma_lookup_union(m, other, k);
                lemma_lookup_union(u1, u2, k);
            }
            lemma_tag_finish(s, s5, p3, r1, r2, t1, t2, other, ext, none, Some(ext), 4);
        } else {
            let empty = FlatModel::EmptyTagUnion;
            assert(model_unify_flat_type(s4, p3, ctx4, ft1, empty, 1) == Some((s4, p3, type_mismatch())));
            assert(model_unify_structure(s4, p3, ctx4, ft1, s.get(e2).content, 2) == Some(
                (s4, p3, type_mismatch()),
            ));
            assert(model_unify_context(s4, p3, ctx4, 3) == Some((s4, p3, type_mismatch())));
            assert(model_unify_pool(s4, p3, sub1, e2, 4) == Some((s4, p3, type_mismatch())));
        }
    } else {
        let empty = FlatModel::EmptyTagUnion;
        assert(model_unify_flat_type(s3, p3, ctx3, empty, ft2, 1) == Some((s3, p3, type_mismatch())));
        assert(model_unify_structure(s3, p3, ctx3, empty, c2, 2) == Some((s3, p3, type_mismatch())));
        assert(model_unify_context(s3, p3, ctx3, 3) == Some((s3, p3, type_mismatch())));
        assert(model_unify_pool(s3, p3, e1, sub2, 4) == Some((s3, p3, type_mismatch())));
    }
}

/// Two tag unions whose rows each end open or closed, and whose shared tags
/// have payloads that match pairwise already, unify; when no mismatch is
/// found, the merged class is a tag union holding every tag of either
/// union, each with its payload in the first union if it has the tag and in
/// the second otherwise, and no other tag.  Closed unions with different
/// tags, and a closed union against one with tags it lacks, fail.
pub proof fn lemma_tag_unions_keep_their_tags(
    s: SubsModel,
    p: Seq<Variable>,
    r1: Variable,
    r2: Variable,
    t1: Seq<(TagName, Seq<Variable>)>,
    e1: Variable,
    t2: Seq<(TagName, Seq<Variable>)>,
    e2: Variable,
)
    requires
        tag_union_pair(s, r1, r2, t1, e1, t2, e2),
    ensures
        unify_pool_returns(s, p, r1, r2),
        ({
            let (t, _, o) = unify_pool_result(s, p, r1, r2);
            &&& o.len() == 0 ==> t.equiv(r1, r2) && holds_tags_of(t, r1, t1, t2)
            &&& o.len() == 0 <==> rows_take_the_rest(complement(t1, t2).len() == 0, complement(t2, t1).len() == 0, s.get(e1).content, s.get(e2).content)
        }),
{
    let ctx = context_of(s, r1, r2);
    if complement(t1, t2).len() == 0 {
        if complement(t2, t1).len() == 0 {
            lemma_tags_same(s, p, r1, r2, t1, e1, t2, e2);
        } else {
            lemma_tags_second_has_more(s, p, r1, r2, t1, e1, t2, e2);
        }
    } else if complement(t2, t1).len() == 0 {
        lemma_tags_first_has_more(s, p, r1, r2, t1, e1, t2, e2);
    } else {
        lemma_tags_both_have_more(s, p, r1, r2, t1, e1, t2, e2);
    }
    let l = FlatModel::TagUnion(t1, e1);
    let r = FlatModel::TagUnion(t2, e2);
    assert(model_gather_tags(s, t1, e1, 7) == Some((t1, e1)));
    assert(model_gather_tags(s, t2, e2, 7) == Some((t2, e2)));
    let target = model_unify_tag_exts(s, p, ctx, t1, e1, t2, e2, None, 6);
    assert(model_unify_tag_union(s, p, ctx, t1, e1, t2, e2, None, None, 7) == target);
    assert(model_unify_gathered_tags(s, p, ctx, t1, e1, t2, e2, None, None, 8) == target);
    assert(model_unify_flat_type(s, p, ctx, l, r, 9) == target);
    assert(model_unify_structure(s, p, ctx, l, ContentModel::Structure(r), 10) == target);
    assert(model_unify_context(s, p, ctx, 11) == target);
    assert(model_unify_pool(s, p, r1, r2, 12) == target);
    lemma_unify_pool_result(s, p, r1, r2, 12);
}

/// A flexible variable takes what the other side holds: unified with a
/// variable of another class holding `c`, in either order, there is no
/// mismatch and the joined class holds `c`, except that two flexible
/// variables keep the first's name when only the first has one.
pub proof fn lemma_flex_takes_the_other(s: SubsModel, p: Seq<Variable>, a: Variable, b: Variable)
    requires
        s.wf(),
        a < s.len(),
        b < s.len(),
        !s.equiv(a, b),
        s.get(a).content is FlexVar || s.get(b).content is FlexVar,
    ensures
        unify_pool_returns(s, p, a, b),
        unify_pool_result(s, p, a, b).2 == Seq::<Mismatch>::empty(),
        unify_pool_result(s, p, a, b).1 == p,
        unify_pool_result(s, p, a, b).0.equiv(a, b),
        unify_pool_result(s, p, a, b).0.get(a).content == if s.get(a).content is FlexVar {
            if s.get(b).content == ContentModel::FlexVar(None) {
                s.get(a).content
            } else {
                s.get(b).content
            }
        } else {
            s.get(a).content
        },
{
    lemma_get_below(s, a);
    lemma_get_below(s, b);
    let ctx = context_of(s, a, b);
    let c = if s.get(a).content is FlexVar {
        if s.get(b).content == ContentModel::FlexVar(None) {
            s.get(a).content
        } else {
            s.get(b).content
        }
    } else {
        s.get(a).content
    };
    lemma_union(s, a, b, merged(ctx, c));
    let t = model_merge(s, ctx, c);
    if let ContentModel::Structure(ft) = s.get(a).content {
        assert(model_unify_structure(s, p, ctx, ft, s.get(b).content, 2) == Some((t, p, Seq::<Mismatch>::empty())));
    }
    assert(model_unify_context(s, p, ctx, 3) == Some((t, p, Seq::<Mismatch>::empty())));
    assert(model_unify_pool(s, p, a, b, 4) is Some);
    lemma_unify_pool_result(s, p, a, b, 4);
}

/// An error propagates: a variable holding an error unified with any
/// variable of another class that is no alias, in either order, gives no
/// mismatch and one class holding an error.
pub proof fn lemma_error_propagates(s: SubsModel, p: Seq<Variable>, a: Variable, b: Variable)
    requires
        s.wf(),
        a < s.len(),
        b < s.len(),
        !s.equiv(a, b),
        s.get(a).content == ContentModel::Error || (s.get(b).content == ContentModel::Error && !(s.get(
            a,
        ).content is Alias)),
    ensures
        unify_pool_returns(s, p, a, b),
        unify_pool_result(s, p, a, b).2 == Seq::<Mismatch>::empty(),
        unify_pool_result(s, p, a, b).1 == p,
        unify_pool_result(s, p, a, b).0.equiv(a, b),
        unify_pool_result(s, p, a, b).0.get(a).content == ContentModel::Error,
{
    let ctx = context_of(s, a, b);
    let c = ContentModel::Error;
    lemma_union(s, a, b, merged(ctx, c));
    let t = model_merge(s, ctx, c);
    if let ContentModel::Structure(ft) = s.get(a).content {
        assert(model_unify_structure(s, p, ctx, ft, s.get(b).content, 2) == Some((t, p, Seq::<Mismatch>::empty())));
    }
    assert(model_unify_context(s, p, ctx, 3) == Some((t, p, Seq::<Mismatch>::empty())));
    assert(model_unify_pool(s, p, a, b, 4) is Some);
    lemma_unify_pool_result(s, p, a, b, 4);
}

/// An alias against a variable holding an error: no mismatch, and one class
/// holding an error.
pub proof fn lemma_alias_meets_error(s: SubsModel, p: Seq<Variable>, a: Variable, b: Variable)
    requires
        s.wf(),
        a < s.len(),
        b < s.len(),
        s.get(a).content is Alias,
        s.get(b).content == ContentModel::Error,
    ensures
        unify_pool_returns(s, p, a, b),
        unify_pool_result(s, p, a, b).2 == Seq::<Mismatch>::empty(),
        unify_pool_result(s, p, a, b).0.equiv(a, b),
        unify_pool_result(s, p, a, b).0.get(a).content == ContentModel::Error,
{
    let ctx = context_of(s, a, b);
    let c = ContentModel::Error;
    lemma_union(s, a, b, merged(ctx, c));
    let t = model_merge(s, ctx, c);
    assert(model_unify_context(s, p, ctx, 3) == Some((t, p, Seq::<Mismatch>::empty())));
    assert(model_unify_pool(s, p, a, b, 4) is Some);
    lemma_unify_pool_result(s, p, a, b, 4);
}

/// Functions of different arities never unify: a single mismatch, and
/// nothing changes.
pub proof fn lemma_functions_of_two_arities(
    s: SubsModel,
    p: Seq<Variable>,
    f: Variable,
    g: Variable,
    args1: Seq<Variable>,
    r1: Variable,
    args2: Seq<Variable>,
    r2: Variable,
)
    requires
        s.get(f).content == ContentModel::Structure(FlatModel::Func(args1, r1)),
        s.get(g).content == ContentModel::Structure(FlatModel::Func(args2, r2)),
        args1.len() != args2.len(),
    ensures
        unify_pool_returns(s, p, f, g),
        unify_pool_result(s, p, f, g) == (s, p, type_mismatch()),
{
    assert(!s.equiv(f, g));
    let ctx = context_of(s, f, g);
    let l = FlatModel::Func(args1, r1);
    let r = FlatModel::Func(args2, r2);
    assert(model_unify_flat_type(s, p, ctx, l, r, 1) == Some((s, p, type_mismatch())));
    assert(model_unify_structure(s, p, ctx, l, ContentModel::Structure(r), 2) == Some((s, p, type_mismatch())));
    assert(model_unify_context(s, p, ctx, 3) == Some((s, p, type_mismatch())));
    assert(model_unify_pool(s, p, f, g, 4) == Some((s, p, type_mismatch())));
    lemma_unify_pool_result(s, p, f, g, 4);
}

/// Two applications of one constructor whose arguments are pairwise of one
/// class already unify without mismatch or new variables, into one class
/// holding the second application.
pub proof fn lemma_applications_of_one_constructor(
    s: SubsModel,
    p: Seq<Variable>,
    a: Variable,
    b: Variable,
    c: Symbol,
    args1: Seq<Variable>,
    args2: Seq<Variable>,
)
    requires
        s.wf(),
        a < s.len(),
        b < s.len(),
        !s.equiv(a, b),
        s.get(a).content == ContentModel::Structure(FlatModel::Apply(c, args1)),
        s.get(b).content == ContentModel::Structure(FlatModel::Apply(c, args2)),
        args1.len() == args2.len(),
        forall|j: int| 0 <= j < args1.len() ==> s.equiv(#[trigger] args1[j], args2[j]),
    ensures
        unify_pool_returns(s, p, a, b),
        unify_pool_result(s, p, a, b).2 == Seq::<Mismatch>::empty(),
        unify_pool_result(s, p, a, b).1 == p,
        unify_pool_result(s, p, a, b).0.equiv(a, b),
        unify_pool_result(s, p, a, b).0.get(a).content == ContentModel::Structure(FlatModel::Apply(c, args2)),
{
    let ctx = context_of(s, a, b);
    let l = FlatModel::Apply(c, args1);
    let r = FlatModel::Apply(c, args2);
    let content = ContentModel::Structure(r);
    lemma_zip_of_equivalent(s, p, args1, args2, 0, Seq::empty(), 2);
    lemma_union_get(s, a, b, merged(ctx, content));
    let t = model_merge(s, ctx, content);
    assert(model_unify_flat_type(s, p, ctx, l, r, 3) == Some((t, p, Seq::<Mismatch>::empty())));
    assert(model_unify_structure(s, p, ctx, l, content, 4) == Some((t, p, Seq::<Mismatch>::empty())));
    assert(model_unify_context(s, p, ctx, 5) == Some((t, p, Seq::<Mismatch>::empty())));
    assert(model_unify_pool(s, p, a, b, 6) is Some);
    lemma_unify_pool_result(s, p, a, b, 6);
}

/// Unifying alias arguments pairwise that are of one class already changes
/// nothing and finds nothing.
proof fn lemma_args_of_equivalent(
    s: SubsModel,
    p: Seq<Variable>,
    l: Seq<(Lowercase, Variable)>,
    r: Seq<(Lowercase, Variable)>,
    i: int,
    acc: Seq<Mismatch>,
    fuel: nat,
)
    requires
        fuel >= 2,
        0 <= i <= l.len(),
        l.len() == r.len(),
        forall|j: int| i <= j < l.len() ==> s.equiv((#[trigger] l[j]).1, r[j].1),
    ensures
        model_unify_args(s, p, l, r, i, acc, fuel) == Some((s, p, acc)),
    decreases l.len() - i,
{
    if i < l.len() {
        assert(s.equiv(l[i].1, r[i].1));
        assert(model_unify_pool(s, p, l[i].1, r[i].1, (fuel - 1) as nat) == Some((s, p, Seq::<Mismatch>::empty())));
        assert(acc + Seq::<Mismatch>::empty() =~= acc);
        lemma_args_of_equivalent(s, p, l, r, i + 1, acc, fuel);
    }
}

/// Two aliases of one name: of different numbers of arguments they never
/// unify (a single mismatch, nothing changes); of one number with arguments
/// pairwise of one class already, they unify without mismatch into one
/// class holding the second alias.
pub proof fn lemma_aliases_of_one_name(
    s: SubsModel,
    p: Seq<Variable>,
    a1: Variable,
    a2: Variable,
    sym: Symbol,
    args1: Seq<(Lowercase, Variable)>,
    real1: Variable,
    args2: Seq<(Lowercase, Variable)>,
    real2: Variable,
)
    requires
        s.wf(),
        a1 < s.len(),
        a2 < s.len(),
        !s.equiv(a1, a2),
        s.get(a1).content == ContentModel::Alias(sym, args1, real1),
        s.get(a2).content == ContentModel::Alias(sym, args2, real2),
        args1.len() == args2.len() ==> forall|j: int| 0 <= j < args1.len() ==> s.equiv((#[trigger] args1[j]).1, args2[j].1),
    ensures
        unify_pool_returns(s, p, a1, a2),
        args1.len() != args2.len() ==> unify_pool_result(s, p, a1, a2) == (s, p, type_mismatch()),
        args1.len() == args2.len() ==> {
            &&& unify_pool_result(s, p, a1, a2).2 == Seq::<Mismatch>::empty()
            &&& unify_pool_result(s, p, a1, a2).1 == p
            &&& unify_pool_result(s, p, a1, a2).0.equiv(a1, a2)
            &&& unify_pool_result(s, p, a1, a2).0.get(a1).content == ContentModel::Alias(sym, args2, real2)
        },
{
    let ctx = context_of(s, a1, a2);
    if args1.len() == args2.len() {
        lemma_args_of_equivalent(s, p, args1, args2, 0, Seq::empty(), 3);
        let content = ContentModel::Alias(sym, args2, real2);
        lemma_union_get(s, a1, a2, merged(ctx, content));
        assert(Seq::<Mismatch>::empty() + Seq::<Mismatch>::empty() =~= Seq::<Mismatch>::empty());
    }
    assert(model_unify_context(s, p, ctx, 5) is Some);
    assert(model_unify_pool(s, p, a1, a2, 6) is Some);
    lemma_unify_pool_result(s, p, a1, a2, 6);
}

/// Two shared uniqueness attributes unify without mismatch into one class
/// that is shared.
pub proof fn lemma_shared_attributes(s: SubsModel, p: Seq<Variable>, a: Variable, b: Variable)
    requires
        s.wf(),
        a < s.len(),
        b < s.len(),
        !s.equiv(a, b),
        s.is_shared(a),
        s.is_shared(b),
    ensures
        unify_pool_returns(s, p, a, b),
        unify_pool_result(s, p, a, b).2 == Seq::<Mismatch>::empty(),
        unify_pool_result(s, p, a, b).1 == p,
        unify_pool_result(s, p, a, b).0.equiv(a, b),
        unify_pool_result(s, p, a, b).0.is_shared(a),
{
    let ctx = context_of(s, a, b);
    let shared_attr = FlatModel::Boolean(BoolModel::Shared);
    let content = ContentModel::Structure(shared_attr);
    lemma_union_get(s, a, b, merged(ctx, content));
    let t = model_merge(s, ctx, content);
    assert(model_unify_bool(s, p, ctx, BoolModel::Shared, BoolModel::Shared, 1) == Some((t, p, Seq::<Mismatch>::empty())));
    assert(model_unify_flat_type(s, p, ctx, shared_attr, shared_attr, 2) == Some((t, p, Seq::<Mismatch>::empty())));
    assert(model_unify_structure(s, p, ctx, shared_attr, content, 3) == Some((t, p, Seq::<Mismatch>::empty())));
    assert(model_unify_context(s, p, ctx, 4) == Some((t, p, Seq::<Mismatch>::empty())));
    assert(model_unify_pool(s, p, a, b, 5) is Some);
    lemma_unify_pool_result(s, p, a, b, 5);
}

/// The class that merging gives holds the content it is given, at the lower
/// of the two ranks it joins, with no mark and no copy.
pub proof fn lemma_merged_descriptor(ctx: ContextModel, c: ContentModel)
    ensures
        merged(ctx, c).content == c,
        merged(ctx, c).rank <= ctx.first_desc.rank,
        merged(ctx, c).rank <= ctx.second_desc.rank,
        merged(ctx, c).rank == ctx.first_desc.rank || merged(ctx, c).rank == ctx.second_desc.rank,
        merged(ctx, c).mark == MARK_NONE,
        merged(ctx, c).copy is None,
{
}

} // verus!
