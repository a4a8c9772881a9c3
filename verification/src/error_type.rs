//! The types reported when a unification fails: the type a variable stands
//! for, read back from the store, with a cycle cut off where a class is met
//! again inside itself.
use vstd::prelude::*;
use crate::types::{
    Variable, Lowercase, TagName, Symbol, Problem, Bool, BoolModel, FlatType, Content,
    ContentModel, FlatModel, MARK_OCCURS, fields_below, tags_below, var_below, list_below, vars_below,
};
use crate::maps::{map_insert, map_union, insert, union};
use crate::subs::{Subs, SubsModel, lemma_get_below};
use crate::flat_type::contains_var;

verus! {

/// How the row of a record or tag union type ends.
#[derive(Clone, Copy, Debug, PartialEq, Eq, Structural)]
pub enum TypeExt {
    Closed,
    FlexOpen(Option<Lowercase>),
    RigidOpen(Lowercase),
}

/// A type as it is reported in an error.
#[derive(Debug, PartialEq, Eq)]
pub enum ErrorType {
    Infinite,
    Type(Symbol, Vec<ErrorType>),
    FlexVar(Option<Lowercase>),
    RigidVar(Lowercase),
    Record(Vec<(Lowercase, ErrorType)>, TypeExt),
    TagUnion(Vec<(TagName, Vec<ErrorType>)>, TypeExt),
    RecursiveTagUnion(Box<ErrorType>, Vec<(TagName, Vec<ErrorType>)>, TypeExt),
    Function(Vec<ErrorType>, Box<ErrorType>),
    Alias(Symbol, Vec<(Lowercase, ErrorType)>, Box<ErrorType>),
    Boolean(Bool),
    Error,
}

/// Model of `ErrorType`: vectors become sequences.
pub enum ErrorTypeModel {
    Infinite,
    Type(Symbol, Seq<ErrorTypeModel>),
    FlexVar(Option<Lowercase>),
    RigidVar(Lowercase),
    Record(Seq<(Lowercase, ErrorTypeModel)>, TypeExt),
    TagUnion(Seq<(TagName, Seq<ErrorTypeModel>)>, TypeExt),
    RecursiveTagUnion(Box<ErrorTypeModel>, Seq<(TagName, Seq<ErrorTypeModel>)>, TypeExt),
    Function(Seq<ErrorTypeModel>, Box<ErrorTypeModel>),
    Alias(Symbol, Seq<(Lowercase, ErrorTypeModel)>, Box<ErrorTypeModel>),
    Boolean(BoolModel),
    Error,
}

/// The model of an error type.
pub open spec fn err_model(e: ErrorType) -> ErrorTypeModel
    decreases e,
{
    match e {
        ErrorType::Infinite => ErrorTypeModel::Infinite,
        ErrorType::Type(sym, args) => ErrorTypeModel::Type(sym, errs_model(args@)),
        ErrorType::FlexVar(n) => ErrorTypeModel::FlexVar(n),
        ErrorType::RigidVar(n) => ErrorTypeModel::RigidVar(n),
        ErrorType::Record(fields, ext) => ErrorTypeModel::Record(labelled_model(fields@), ext),
        ErrorType::TagUnion(tags, ext) => ErrorTypeModel::TagUnion(tag_errs_model(tags@), ext),
        ErrorType::RecursiveTagUnion(rec, tags, ext) => ErrorTypeModel::RecursiveTagUnion(
            Box::new(err_model(*rec)),
            tag_errs_model(tags@),
            ext,
        ),
        ErrorType::Function(args, ret) => ErrorTypeModel::Function(
            errs_model(args@),
            Box::new(err_model(*ret)),
        ),
        ErrorType::Alias(sym, args, real_var) => ErrorTypeModel::Alias(
            sym,
            labelled_model(args@),
            Box::new(err_model(*real_var)),
        ),
        ErrorType::Boolean(b) => ErrorTypeModel::Boolean(b@),
        ErrorType::Error => ErrorTypeModel::Error,
    }
}

/// The models of a sequence of error types.
pub open spec fn errs_model(v: Seq<ErrorType>) -> Seq<ErrorTypeModel>
    decreases v,
{
    if v.len() == 0 {
        Seq::empty()
    } else {
        errs_model(v.drop_last()).push(err_model(v.last()))
    }
}

/// The models of a sequence of labelled error types.
pub open spec fn labelled_model(v: Seq<(u64, ErrorType)>) -> Seq<(u64, ErrorTypeModel)>
    decreases v,
{
    if v.len() == 0 {
        Seq::empty()
    } else {
        labelled_model(v.drop_last()).push((v.last().0, err_model(v.last().1)))
    }
}

/// The models of a sequence of tags with the error types of their payloads.
pub open spec fn tag_errs_model(v: Seq<(u64, Vec<ErrorType>)>) -> Seq<(u64, Seq<ErrorTypeModel>)>
    decreases v,
{
    if v.len() == 0 {
        Seq::empty()
    } else {
        tag_errs_model(v.drop_last()).push((v.last().0, errs_model(v.last().1@)))
    }
}

impl DeepView for ErrorType {
    type V = ErrorTypeModel;

    open spec fn deep_view(&self) -> ErrorTypeModel {
        err_model(*self)
    }
}

/// The model of a vector of error types is its deep view.
pub proof fn lemma_errs_model(v: Vec<ErrorType>)
    ensures
        errs_model(v@) == v.deep_view(),
    decreases v@.len(),
{
    lemma_errs_model_seq(v@);
    assert(v.deep_view() =~= Seq::new(v@.len(), |i: int| err_model(v@[i])));
}

/// The model of a sequence of error types, element by element.
pub proof fn lemma_errs_model_seq(v: Seq<ErrorType>)
    ensures
        errs_model(v) =~= Seq::new(v.len(), |i: int| err_model(v[i])),
    decreases v.len(),
{
    if v.len() > 0 {
        lemma_errs_model_seq(v.drop_last());
    }
}

/// The model of a vector of labelled error types is its deep view.
pub proof fn lemma_labelled_model(v: Vec<(u64, ErrorType)>)
    ensures
        labelled_model(v@) == v.deep_view(),
{
    lemma_labelled_model_seq(v@);
    assert(v.deep_view() =~= Seq::new(v@.len(), |i: int| (v@[i].0, err_model(v@[i].1))));
}

/// The model of a sequence of labelled error types, element by element.
pub proof fn lemma_labelled_model_seq(v: Seq<(u64, ErrorType)>)
    ensures
        labelled_model(v) =~= Seq::new(v.len(), |i: int| (v[i].0, err_model(v[i].1))),
    decreases v.len(),
{
    if v.len() > 0 {
        lemma_labelled_model_seq(v.drop_last());
    }
}

/// The model of a vector of tags with payload error types is its deep view.
pub proof fn lemma_tag_errs_model(v: Vec<(u64, Vec<ErrorType>)>)
    ensures
        tag_errs_model(v@) == v.deep_view(),
{
    lemma_tag_errs_model_seq(v@);
    assert forall|i: int| 0 <= i < v@.len() implies errs_model(#[trigger] v@[i].1@) == v@[i].1.deep_view() by {
        lemma_errs_model(v@[i].1);
    }
    assert(v.deep_view() =~= Seq::new(v@.len(), |i: int| (v@[i].0, errs_model(v@[i].1@))));
}

/// The model of a sequence of tags with payload error types, element by element.
pub proof fn lemma_tag_errs_model_seq(v: Seq<(u64, Vec<ErrorType>)>)
    ensures
        tag_errs_model(v) =~= Seq::new(v.len(), |i: int| (v[i].0, errs_model(v[i].1@))),
    decreases v.len(),
{
    if v.len() > 0 {
        lemma_tag_errs_model_seq(v.drop_last());
    }
}

/// The type behind any aliases.
pub open spec fn unwrap_alias_model(e: ErrorTypeModel) -> ErrorTypeModel
    decreases e,
{
    match e {
        ErrorTypeModel::Alias(_, _, real_var) => unwrap_alias_model(*real_var),
        _ => e,
    }
}

/// A record type of `fields` over the extension type `ext`; none when the
/// extension is no record and no variable.
pub open spec fn record_over(fields: Seq<(Lowercase, ErrorTypeModel)>, ext: ErrorTypeModel) -> Option<
    ErrorTypeModel,
> {
    match ext {
        // the extension's own fields win over those of the outer record
        ErrorTypeModel::Record(sub, sub_ext) => Some(ErrorTypeModel::Record(map_union(fields, sub), sub_ext)),
        ErrorTypeModel::FlexVar(n) => Some(ErrorTypeModel::Record(fields, TypeExt::FlexOpen(n))),
        ErrorTypeModel::RigidVar(n) => Some(ErrorTypeModel::Record(fields, TypeExt::RigidOpen(n))),
        _ => None,
    }
}

/// A tag union type of `tags` over the extension type `ext`; none when the
/// extension is no tag union and no variable.
pub open spec fn tag_union_over(tags: Seq<(TagName, Seq<ErrorTypeModel>)>, ext: ErrorTypeModel) -> Option<
    ErrorTypeModel,
> {
    match ext {
        ErrorTypeModel::TagUnion(sub, sub_ext) => Some(ErrorTypeModel::TagUnion(map_union(tags, sub), sub_ext)),
        ErrorTypeModel::FlexVar(n) => Some(ErrorTypeModel::TagUnion(tags, TypeExt::FlexOpen(n))),
        ErrorTypeModel::RigidVar(n) => Some(ErrorTypeModel::TagUnion(tags, TypeExt::RigidOpen(n))),
        _ => None,
    }
}

/// A recursive tag union type with recursion type `rec` of `tags` over the
/// extension type `ext`; none when the extension is no tag union and no
/// variable.
pub open spec fn recursive_union_over(
    rec: ErrorTypeModel,
    tags: Seq<(TagName, Seq<ErrorTypeModel>)>,
    ext: ErrorTypeModel,
) -> Option<ErrorTypeModel> {
    match ext {
        ErrorTypeModel::RecursiveTagUnion(_, sub, sub_ext) => Some(
            ErrorTypeModel::RecursiveTagUnion(Box::new(rec), map_union(tags, sub), sub_ext),
        ),
        ErrorTypeModel::TagUnion(sub, sub_ext) => Some(
            ErrorTypeModel::RecursiveTagUnion(Box::new(rec), map_union(tags, sub), sub_ext),
        ),
        ErrorTypeModel::FlexVar(n) => Some(
            ErrorTypeModel::RecursiveTagUnion(Box::new(rec), tags, TypeExt::FlexOpen(n)),
        ),
        ErrorTypeModel::RigidVar(n) => Some(
            ErrorTypeModel::RecursiveTagUnion(Box::new(rec), tags, TypeExt::RigidOpen(n)),
        ),
        _ => None,
    }
}

/// The error type of `var` and the problems met on the way, in order, when
/// the classes of `path` are being read already; none when the fuel runs
/// out or a row ends in something that is no row.  A class that is being
/// read already, or that carries the mark of one, reads as infinite.
pub open spec fn model_var_err(s: SubsModel, var: Variable, path: Seq<Variable>, fuel: nat) -> Option<
    (ErrorTypeModel, Seq<Problem>),
>
    decreases fuel, 0int,
{
    if fuel == 0 {
        None
    } else {
        let r = s.root(var);
        if path.contains(r) || s.get(var).mark == MARK_OCCURS {
            // the class is met again inside itself
            Some((ErrorTypeModel::Infinite, Seq::empty()))
        } else {
            model_content_err(s, s.get(var).content, path.push(r), (fuel - 1) as nat)
        }
    }
}

/// The error type of the content `c`.
pub open spec fn model_content_err(s: SubsModel, c: ContentModel, path: Seq<Variable>, fuel: nat) -> Option<
    (ErrorTypeModel, Seq<Problem>),
>
    decreases fuel, 0int,
{
    if fuel == 0 {
        None
    } else {
        let f = (fuel - 1) as nat;
        match c {
            ContentModel::FlexVar(n) => Some((ErrorTypeModel::FlexVar(n), Seq::empty())),
            ContentModel::RigidVar(n) => Some((ErrorTypeModel::RigidVar(n), Seq::empty())),
            ContentModel::Error => Some((ErrorTypeModel::Error, Seq::empty())),
            ContentModel::Alias(sym, args, real_var) => match model_labelled_errs(
                s,
                args,
                path,
                0,
                Seq::empty(),
                Seq::empty(),
                f,
            ) {
                None => None,
                Some((errs, p1)) => match model_var_err(s, real_var, path, f) {
                    None => None,
                    Some((e, p2)) => Some((ErrorTypeModel::Alias(sym, errs, Box::new(e)), p1 + p2)),
                },
            },
            ContentModel::Structure(ft) => model_flat_err(s, ft, path, f),
        }
    }
}

/// The error type of the structure `ft`.
pub open spec fn model_flat_err(s: SubsModel, ft: FlatModel, path: Seq<Variable>, fuel: nat) -> Option<
    (ErrorTypeModel, Seq<Problem>),
>
    decreases fuel, 0int,
{
    if fuel == 0 {
        None
    } else {
        let f = (fuel - 1) as nat;
        match ft {
            FlatModel::Apply(sym, args) => match model_errs(s, args, path, 0, Seq::empty(), Seq::empty(), f) {
                None => None,
                Some((errs, p)) => Some((ErrorTypeModel::Type(sym, errs), p)),
            },
            FlatModel::Func(args, ret) => match model_errs(s, args, path, 0, Seq::empty(), Seq::empty(), f) {
                None => None,
                Some((errs, p1)) => match model_var_err(s, ret, path, f) {
                    None => None,
                    Some((e, p2)) => Some((ErrorTypeModel::Function(errs, Box::new(e)), p1 + p2)),
                },
            },
            FlatModel::EmptyRecord => Some((ErrorTypeModel::Record(Seq::empty(), TypeExt::Closed), Seq::empty())),
            FlatModel::EmptyTagUnion => Some(
                (ErrorTypeModel::TagUnion(Seq::empty(), TypeExt::Closed), Seq::empty()),
            ),
            FlatModel::Record(fields, ext) => match model_field_errs(
                s,
                fields,
                path,
                0,
                Seq::empty(),
                Seq::empty(),
                f,
            ) {
                None => None,
                Some((errs, p1)) => match model_var_err(s, ext, path, f) {
                    None => None,
                    Some((e, p2)) => match record_over(errs, unwrap_alias_model(e)) {
                        None => None,
                        Some(t) => Some((t, p1 + p2)),
                    },
                },
            },
            FlatModel::TagUnion(tags, ext) => match model_tag_errs(s, tags, path, 0, Seq::empty(), Seq::empty(), f) {
                None => None,
                Some((errs, p1)) => match model_var_err(s, ext, path, f) {
                    None => None,
                    Some((e, p2)) => match tag_union_over(errs, unwrap_alias_model(e)) {
                        None => None,
                        Some(t) => Some((t, p1 + p2)),
                    },
                },
            },
            FlatModel::RecursiveTagUnion(rec, tags, ext) => match model_var_err(s, rec, path, f) {
                None => None,
                Some((re, p0)) => match model_tag_errs(s, tags, path, 0, Seq::empty(), Seq::empty(), f) {
                    None => None,
                    Some((errs, p1)) => match model_var_err(s, ext, path, f) {
                        None => None,
                        Some((e, p2)) => match recursive_union_over(re, errs, unwrap_alias_model(e)) {
                            None => None,
                            Some(t) => Some((t, p0 + p1 + p2)),
                        },
                    },
                },
            },
            FlatModel::Boolean(b) => Some((ErrorTypeModel::Boolean(b), Seq::empty())),
            FlatModel::Erroneous(problem) => Some((ErrorTypeModel::Error, seq![problem])),
        }
    }
}

/// The error types of `vs` from index `i` on, after those in `acc` and the
/// problems in `probs`.
pub open spec fn model_errs(
    s: SubsModel,
    vs: Seq<Variable>,
    path: Seq<Variable>,
    i: int,
    acc: Seq<ErrorTypeModel>,
    probs: Seq<Problem>,
    fuel: nat,
) -> Option<(Seq<ErrorTypeModel>, Seq<Problem>)>
    decreases fuel, vs.len() - i,
{
    if fuel == 0 {
        None
    } else if i < 0 || i >= vs.len() {
        Some((acc, probs))
    } else {
        match model_var_err(s, vs[i], path, (fuel - 1) as nat) {
            None => None,
            Some((e, p)) => model_errs(s, vs, path, i + 1, acc.push(e), probs + p, fuel),
        }
    }
}

/// The error types of the labelled variables `args` from index `i` on, each
/// with its label, after those in `acc` and the problems in `probs`.
pub open spec fn model_labelled_errs(
    s: SubsModel,
    args: Seq<(Lowercase, Variable)>,
    path: Seq<Variable>,
    i: int,
    acc: Seq<(Lowercase, ErrorTypeModel)>,
    probs: Seq<Problem>,
    fuel: nat,
) -> Option<(Seq<(Lowercase, ErrorTypeModel)>, Seq<Problem>)>
    decreases fuel, args.len() - i,
{
    if fuel == 0 {
        None
    } else if i < 0 || i >= args.len() {
        Some((acc, probs))
    } else {
        match model_var_err(s, args[i].1, path, (fuel - 1) as nat) {
            None => None,
            Some((e, p)) => model_labelled_errs(s, args, path, i + 1, acc.push((args[i].0, e)), probs + p, fuel),
        }
    }
}

/// The error types of the fields `fields` from index `i` on, inserted in the
/// map `acc`, after the problems in `probs`.
pub open spec fn model_field_errs(
    s: SubsModel,
    fields: Seq<(Lowercase, Variable)>,
    path: Seq<Variable>,
    i: int,
    acc: Seq<(Lowercase, ErrorTypeModel)>,
    probs: Seq<Problem>,
    fuel: nat,
) -> Option<(Seq<(Lowercase, ErrorTypeModel)>, Seq<Problem>)>
    decreases fuel, fields.len() - i,
{
    if fuel == 0 {
        None
    } else if i < 0 || i >= fields.len() {
        Some((acc, probs))
    } else {
        match model_var_err(s, fields[i].1, path, (fuel - 1) as nat) {
            None => None,
            Some((e, p)) => model_field_errs(
                s,
                fields,
                path,
                i + 1,
                map_insert(acc, fields[i].0, e),
                probs + p,
                fuel,
            ),
        }
    }
}

/// The error types of the payloads of `tags` from index `i` on, inserted in
/// the map `acc`, after the problems in `probs`.
pub open spec fn model_tag_errs(
    s: SubsModel,
    tags: Seq<(TagName, Seq<Variable>)>,
    path: Seq<Variable>,
    i: int,
    acc: Seq<(TagName, Seq<ErrorTypeModel>)>,
    probs: Seq<Problem>,
    fuel: nat,
) -> Option<(Seq<(TagName, Seq<ErrorTypeModel>)>, Seq<Problem>)>
    decreases fuel, tags.len() - i,
{
    if fuel == 0 {
        None
    } else if i < 0 || i >= tags.len() {
        Some((acc, probs))
    } else {
        match model_errs(s, tags[i].1, path, 0, Seq::empty(), Seq::empty(), (fuel - 1) as nat) {
            None => None,
            Some((errs, p)) => model_tag_errs(
                s,
                tags,
                path,
                i + 1,
                map_insert(acc, tags[i].0, errs),
                probs + p,
                fuel,
            ),
        }
    }
}

/// Reading back the type of `var` returns: the model has a result for some
/// fuel.
pub open spec fn error_type_returns(s: SubsModel, var: Variable) -> bool {
    exists|fuel: nat| #[trigger] model_var_err(s, var, Seq::empty(), fuel) is Some
}

/// A fuel for which the model of reading back `var` has a result.
pub open spec fn error_fuel(s: SubsModel, var: Variable) -> nat {
    choose|fuel: nat| #[trigger] model_var_err(s, var, Seq::empty(), fuel) is Some
}

/// The error type of `var` and the problems found in it.
pub open spec fn error_type_result(s: SubsModel, var: Variable) -> (ErrorTypeModel, Seq<Problem>) {
    model_var_err(s, var, Seq::empty(), error_fuel(s, var))->Some_0
}

/// The type behind any aliases.
pub fn unwrap_alias(e: ErrorType) -> (r: ErrorType)
    ensures
        r.deep_view() == unwrap_alias_model(e.deep_view()),
    decreases e,
{
    match e {
        ErrorType::Alias(_, _, real_var) => unwrap_alias(*real_var),
        other => other,
    }
}

/// Reads back the type of `var`; `path` holds the roots of the classes
/// being read already, and the problems met are appended to `problems`.
fn var_to_err_type(
    subs: &Subs,
    var: Variable,
    path: &mut Vec<Variable>,
    problems: &mut Vec<Problem>,
    Ghost(fuel): Ghost<nat>,
) -> (r: ErrorType)
    requires
        subs@.wf(),
        var < subs@.len(),
        model_var_err(subs@, var, old(path)@, fuel) is Some,
    ensures
        final(path)@ == old(path)@,
        r.deep_view() == model_var_err(subs@, var, old(path)@, fuel)->Some_0.0,
        final(problems)@ == old(problems)@ + model_var_err(subs@, var, old(path)@, fuel)->Some_0.1,
    decreases fuel, 0int,
{
    let root = subs.get_root_key(var);
    if contains_var(path, root) || subs.get_mark(var) == MARK_OCCURS {
        assert(problems@ =~= problems@ + Seq::<Problem>::empty());
        ErrorType::Infinite
    } else {
        proof {
            lemma_get_below(subs@, var);
        }
        let ghost before = path@;
        path.push(root);
        let r = content_to_err_type(subs, subs.content(var), path, problems, Ghost((fuel - 1) as nat));
        path.pop();
        assert(path@ =~= before);
        r
    }
}

/// Reads back the type that the content `c` stands for.
fn content_to_err_type(
    subs: &Subs,
    c: &Content,
    path: &mut Vec<Variable>,
    problems: &mut Vec<Problem>,
    Ghost(fuel): Ghost<nat>,
) -> (r: ErrorType)
    requires
        subs@.wf(),
        c@.below(subs@.len()),
        model_content_err(subs@, c@, old(path)@, fuel) is Some,
    ensures
        final(path)@ == old(path)@,
        r.deep_view() == model_content_err(subs@, c@, old(path)@, fuel)->Some_0.0,
        final(problems)@ == old(problems)@ + model_content_err(subs@, c@, old(path)@, fuel)->Some_0.1,
    decreases fuel, 0int,
{
    let ghost f = (fuel - 1) as nat;
    let ghost p0 = problems@;
    match c {
        Content::FlexVar(n) => {
            assert(p0 =~= p0 + Seq::<Problem>::empty());
            ErrorType::FlexVar(*n)
        },
        Content::RigidVar(n) => {
            assert(p0 =~= p0 + Seq::<Problem>::empty());
            ErrorType::RigidVar(*n)
        },
        Content::Error => {
            assert(p0 =~= p0 + Seq::<Problem>::empty());
            ErrorType::Error
        },
        Content::Alias(sym, args, real_var) => {
            let errs = labelled_err_types(subs, args, path, problems, Ghost(f));
            let ghost p1 = problems@;
            let e = var_to_err_type(subs, *real_var, path, problems, Ghost(f));
            assert(problems@ =~= p0 + ((p1.skip(p0.len() as int)) + problems@.skip(p1.len() as int)));
            ErrorType::Alias(*sym, errs, Box::new(e))
        },
        Content::Structure(ft) => flat_type_to_err_type(subs, ft, path, problems, Ghost(f)),
    }
}

/// Reads back the type that the structure `ft` stands for.
fn flat_type_to_err_type(
    subs: &Subs,
    ft: &FlatType,
    path: &mut Vec<Variable>,
    problems: &mut Vec<Problem>,
    Ghost(fuel): Ghost<nat>,
) -> (r: ErrorType)
    requires
        subs@.wf(),
        ft@.below(subs@.len()),
        model_flat_err(subs@, ft@, old(path)@, fuel) is Some,
    ensures
        final(path)@ == old(path)@,
        r.deep_view() == model_flat_err(subs@, ft@, old(path)@, fuel)->Some_0.0,
        final(problems)@ == old(problems)@ + model_flat_err(subs@, ft@, old(path)@, fuel)->Some_0.1,
    decreases fuel, 0int,
{
    let ghost f = (fuel - 1) as nat;
    let ghost p0 = problems@;
    match ft {
        FlatType::Apply(sym, args) => {
            let errs = err_types_of(subs, args, path, problems, Ghost(f));
            ErrorType::Type(*sym, errs)
        },
        FlatType::Func(args, ret) => {
            let errs = err_types_of(subs, args, path, problems, Ghost(f));
            let ghost p1 = problems@;
            let e = var_to_err_type(subs, *ret, path, problems, Ghost(f));
            assert(problems@ =~= p0 + ((p1.skip(p0.len() as int)) + problems@.skip(p1.len() as int)));
            ErrorType::Function(errs, Box::new(e))
        },
        FlatType::EmptyRecord => {
            assert(p0 =~= p0 + Seq::<Problem>::empty());
            let fields: Vec<(Lowercase, ErrorType)> = Vec::new();
            assert(labelled_model(fields@) =~= Seq::empty());
            ErrorType::Record(fields, TypeExt::Closed)
        },
        FlatType::EmptyTagUnion => {
            assert(p0 =~= p0 + Seq::<Problem>::empty());
            let tags: Vec<(TagName, Vec<ErrorType>)> = Vec::new();
            assert(tag_errs_model(tags@) =~= Seq::empty());
            ErrorType::TagUnion(tags, TypeExt::Closed)
        },
        FlatType::Record(fields, ext) => record_err_type(subs, fields, *ext, path, problems, Ghost(f)),
        FlatType::TagUnion(tags, ext) => tag_union_err_type(subs, tags, *ext, path, problems, Ghost(f)),
        FlatType::RecursiveTagUnion(rec, tags, ext) => {
            let re = var_to_err_type(subs, *rec, path, problems, Ghost(f));
            let ghost p1 = problems@;
            let r = recursive_union_err_type(subs, re, tags, *ext, path, problems, Ghost(f));
            assert(problems@ =~= p0 + ((p1.skip(p0.len() as int)) + problems@.skip(p1.len() as int)));
            r
        },
        FlatType::Boolean(b) => {
            assert(p0 =~= p0 + Seq::<Problem>::empty());
            ErrorType::Boolean(b.duplicate())
        },
        FlatType::Erroneous(problem) => {
            problems.push(*problem);
            assert(problems@ =~= p0 + seq![*problem]);
            ErrorType::Error
        },
    }
}

/// Reads back a record type of `fields` over the extension `ext`.
fn record_err_type(
    subs: &Subs,
    fields: &Vec<(Lowercase, Variable)>,
    ext: Variable,
    path: &mut Vec<Variable>,
    problems: &mut Vec<Problem>,
    Ghost(fuel): Ghost<nat>,
) -> (r: ErrorType)
    requires
        subs@.wf(),
        fields_below(fields.deep_view(), subs@.len()),
        ext < subs@.len(),
        ({
            match model_field_errs(subs@, fields.deep_view(), old(path)@, 0, Seq::empty(), Seq::empty(), fuel) {
                None => false,
                Some((errs, _)) => match model_var_err(subs@, ext, old(path)@, fuel) {
                    None => false,
                    Some((e, _)) => record_over(errs, unwrap_alias_model(e)) is Some,
                },
            }
        }),
    ensures
        final(path)@ == old(path)@,
        ({
            let (errs, p1) = model_field_errs(
                subs@,
                fields.deep_view(),
                old(path)@,
                0,
                Seq::empty(),
                Seq::empty(),
                fuel,
            )->Some_0;
            let (e, p2) = model_var_err(subs@, ext, old(path)@, fuel)->Some_0;
            &&& r.deep_view() == record_over(errs, unwrap_alias_model(e))->Some_0
            &&& final(problems)@ == old(problems)@ + (p1 + p2)
        }),
    decreases fuel, 1int,
{
    let ghost p0 = problems@;
    let err_fields = field_err_types(subs, fields, path, problems, Ghost(fuel));
    let ghost p1 = problems@;
    let e = var_to_err_type(subs, ext, path, problems, Ghost(fuel));
    assert(problems@ =~= p0 + ((p1.skip(p0.len() as int)) + problems@.skip(p1.len() as int)));
    match unwrap_alias(e) {
        ErrorType::Record(sub, sub_ext) => {
            proof {
                lemma_labelled_model(err_fields);
                lemma_labelled_model(sub);
            }
            let merged = union(err_fields, sub);
            proof {
                lemma_labelled_model(merged);
            }
            ErrorType::Record(merged, sub_ext)
        },
        ErrorType::FlexVar(n) => ErrorType::Record(err_fields, TypeExt::FlexOpen(n)),
        ErrorType::RigidVar(n) => ErrorType::Record(err_fields, TypeExt::RigidOpen(n)),
        _ => {
            // the requires leaves out a record whose row ends in no row
            proof {
                assert(false);
            }
            ErrorType::Error
        },
    }
}

/// Reads back a tag union type of `tags` over the extension `ext`.
fn tag_union_err_type(
    subs: &Subs,
    tags: &Vec<(TagName, Vec<Variable>)>,
    ext: Variable,
    path: &mut Vec<Variable>,
    problems: &mut Vec<Problem>,
    Ghost(fuel): Ghost<nat>,
) -> (r: ErrorType)
    requires
        subs@.wf(),
        tags_below(tags.deep_view(), subs@.len()),
        ext < subs@.len(),
        ({
            match model_tag_errs(subs@, tags.deep_view(), old(path)@, 0, Seq::empty(), Seq::empty(), fuel) {
                None => false,
                Some((errs, _)) => match model_var_err(subs@, ext, old(path)@, fuel) {
                    None => false,
                    Some((e, _)) => tag_union_over(errs, unwrap_alias_model(e)) is Some,
                },
            }
        }),
    ensures
        final(path)@ == old(path)@,
        ({
            let (errs, p1) = model_tag_errs(
                subs@,
                tags.deep_view(),
                old(path)@,
                0,
                Seq::empty(),
                Seq::empty(),
                fuel,
            )->Some_0;
            let (e, p2) = model_var_err(subs@, ext, old(path)@, fuel)->Some_0;
            &&& r.deep_view() == tag_union_over(errs, unwrap_alias_model(e))->Some_0
            &&& final(problems)@ == old(problems)@ + (p1 + p2)
        }),
    decreases fuel, 1int,
{
    let ghost p0 = problems@;
    let err_tags = tag_err_types(subs, tags, path, problems, Ghost(fuel));
    let ghost p1 = problems@;
    let e = var_to_err_type(subs, ext, path, problems, Ghost(fuel));
    assert(problems@ =~= p0 + ((p1.skip(p0.len() as int)) + problems@.skip(p1.len() as int)));
    match unwrap_alias(e) {
        ErrorType::TagUnion(sub, sub_ext) => {
            proof {
                lemma_tag_errs_model(err_tags);
                lemma_tag_errs_model(sub);
            }
            let merged = union(err_tags, sub);
            proof {
                lemma_tag_errs_model(merged);
            }
            ErrorType::TagUnion(merged, sub_ext)
        },
        ErrorType::FlexVar(n) => ErrorType::TagUnion(err_tags, TypeExt::FlexOpen(n)),
        ErrorType::RigidVar(n) => ErrorType::TagUnion(err_tags, TypeExt::RigidOpen(n)),
        _ => {
            // the requires leaves out a tag union whose row ends in no row
            proof {
                assert(false);
            }
            ErrorType::Error
        },
    }
}

/// Reads back a recursive tag union type with recursion type `re` of `tags`
/// over the extension `ext`.
fn recursive_union_err_type(
    subs: &Subs,
    re: ErrorType,
    tags: &Vec<(TagName, Vec<Variable>)>,
    ext: Variable,
    path: &mut Vec<Variable>,
    problems: &mut Vec<Problem>,
    Ghost(fuel): Ghost<nat>,
) -> (r: ErrorType)
    requires
        subs@.wf(),
        tags_below(tags.deep_view(), subs@.len()),
        ext < subs@.len(),
        ({
            match model_tag_errs(subs@, tags.deep_view(), old(path)@, 0, Seq::empty(), Seq::empty(), fuel) {
                None => false,
                Some((errs, _)) => match model_var_err(subs@, ext, old(path)@, fuel) {
                    None => false,
                    Some((e, _)) => recursive_union_over(re.deep_view(), errs, unwrap_alias_model(e)) is Some,
                },
            }
        }),
    ensures
        final(path)@ == old(path)@,
        ({
            let (errs, p1) = model_tag_errs(
                subs@,
                tags.deep_view(),
                old(path)@,
                0,
                Seq::empty(),
                Seq::empty(),
                fuel,
            )->Some_0;
            let (e, p2) = model_var_err(subs@, ext, old(path)@, fuel)->Some_0;
            &&& r.deep_view() == recursive_union_over(re.deep_view(), errs, unwrap_alias_model(e))->Some_0
            &&& final(problems)@ == old(problems)@ + (p1 + p2)
        }),
    decreases fuel, 1int,
{
    let ghost p0 = problems@;
    let err_tags = tag_err_types(subs, tags, path, problems, Ghost(fuel));
    let ghost p1 = problems@;
    let e = var_to_err_type(subs, ext, path, problems, Ghost(fuel));
    assert(problems@ =~= p0 + ((p1.skip(p0.len() as int)) + problems@.skip(p1.len() as int)));
    match unwrap_alias(e) {
        ErrorType::RecursiveTagUnion(_, sub, sub_ext) => {
            proof {
                lemma_tag_errs_model(err_tags);
                lemma_tag_errs_model(sub);
            }
            let merged = union(err_tags, sub);
            proof {
                lemma_tag_errs_model(merged);
            }
            ErrorType::RecursiveTagUnion(Box::new(re), merged, sub_ext)
        },
        ErrorType::TagUnion(sub, sub_ext) => {
            proof {
                lemma_tag_errs_model(err_tags);
                lemma_tag_errs_model(sub);
            }
            let merged = union(err_tags, sub);
            proof {
                lemma_tag_errs_model(merged);
            }
            ErrorType::RecursiveTagUnion(Box::new(re), merged, sub_ext)
        },
        ErrorType::FlexVar(n) => ErrorType::RecursiveTagUnion(Box::new(re), err_tags, TypeExt::FlexOpen(n)),
        ErrorType::RigidVar(n) => ErrorType::RecursiveTagUnion(Box::new(re), err_tags, TypeExt::RigidOpen(n)),
        _ => {
            // the requires leaves out a tag union whose row ends in no row
            proof {
                assert(false);
            }
            ErrorType::Error
        },
    }
}

/// Reads back the types of `vs`, in order.
#[verifier::loop_isolation(false)]
fn err_types_of(
    subs: &Subs,
    vs: &Vec<Variable>,
    path: &mut Vec<Variable>,
    problems: &mut Vec<Problem>,
    Ghost(fuel): Ghost<nat>,
) -> (r: Vec<ErrorType>)
    requires
        subs@.wf(),
        vars_below(vs@, subs@.len()),
        model_errs(subs@, vs@, old(path)@, 0, Seq::empty(), Seq::empty(), fuel) is Some,
    ensures
        final(path)@ == old(path)@,
        errs_model(r@) == model_errs(subs@, vs@, old(path)@, 0, Seq::empty(), Seq::empty(), fuel)->Some_0.0,
        final(problems)@ == old(problems)@ + model_errs(
            subs@,
            vs@,
            old(path)@,
            0,
            Seq::empty(),
            Seq::empty(),
            fuel,
        )->Some_0.1,
    decreases fuel, 0int,
{
    let ghost target = model_errs(subs@, vs@, path@, 0, Seq::empty(), Seq::empty(), fuel);
    let ghost path0 = path@;
    let ghost base = problems@;
    let ghost mut pacc: Seq<Problem> = Seq::empty();
    let mut out: Vec<ErrorType> = Vec::new();
    assert(errs_model(out@) =~= Seq::empty());
    assert(base =~= base + pacc);
    let mut i: usize = 0;
    while i < vs.len()
        invariant
            i <= vs.len(),
            path@ == path0,
            problems@ == base + pacc,
            model_errs(subs@, vs@, path0, i as int, errs_model(out@), pacc, fuel) == target,
        decreases vs.len() - i,
    {
        let ghost before = out@;
        let ghost pb = problems@;
        let e = var_to_err_type(subs, vs[i], path, problems, Ghost((fuel - 1) as nat));
        let ghost p = model_var_err(subs@, vs@[i as int], path0, (fuel - 1) as nat)->Some_0.1;
        out.push(e);
        proof {
            assert(out@.drop_last() =~= before);
            assert(problems@ =~= base + (pacc + p));
            pacc = pacc + p;
        }
        i += 1;
    }
    out
}

/// Reads back the types of the labelled variables `args`, each with its label.
#[verifier::loop_isolation(false)]
fn labelled_err_types(
    subs: &Subs,
    args: &Vec<(Lowercase, Variable)>,
    path: &mut Vec<Variable>,
    problems: &mut Vec<Problem>,
    Ghost(fuel): Ghost<nat>,
) -> (r: Vec<(Lowercase, ErrorType)>)
    requires
        subs@.wf(),
        fields_below(args.deep_view(), subs@.len()),
        model_labelled_errs(subs@, args.deep_view(), old(path)@, 0, Seq::empty(), Seq::empty(), fuel) is Some,
    ensures
        final(path)@ == old(path)@,
        labelled_model(r@) == model_labelled_errs(
            subs@,
            args.deep_view(),
            old(path)@,
            0,
            Seq::empty(),
            Seq::empty(),
            fuel,
        )->Some_0.0,
        final(problems)@ == old(problems)@ + model_labelled_errs(
            subs@,
            args.deep_view(),
            old(path)@,
            0,
            Seq::empty(),
            Seq::empty(),
            fuel,
        )->Some_0.1,
    decreases fuel, 0int,
{
    let ghost target = model_labelled_errs(subs@, args.deep_view(), path@, 0, Seq::empty(), Seq::empty(), fuel);
    let ghost path0 = path@;
    let ghost base = problems@;
    let ghost mut pacc: Seq<Problem> = Seq::empty();
    let mut out: Vec<(Lowercase, ErrorType)> = Vec::new();
    assert(labelled_model(out@) =~= Seq::empty());
    assert(base =~= base + pacc);
    let mut i: usize = 0;
    while i < args.len()
        invariant
            i <= args.len(),
            path@ == path0,
            problems@ == base + pacc,
            model_labelled_errs(subs@, args.deep_view(), path0, i as int, labelled_model(out@), pacc, fuel)
                == target,
        decreases args.len() - i,
    {
        let ghost before = out@;
        let (name, var) = args[i];
        assert(args.deep_view()[i as int] == (name, var));
        assert(var_below(subs@.len())(args.deep_view()[i as int].1));
        let e = var_to_err_type(subs, var, path, problems, Ghost((fuel - 1) as nat));
        let ghost p = model_var_err(subs@, var, path0, (fuel - 1) as nat)->Some_0.1;
        out.push((name, e));
        proof {
            assert(out@.drop_last() =~= before);
            assert(problems@ =~= base + (pacc + p));
            pacc = pacc + p;
        }
        i += 1;
    }
    out
}

/// Reads back the types of the fields `fields`, as a map from label to type.
#[verifier::loop_isolation(false)]
fn field_err_types(
    subs: &Subs,
    fields: &Vec<(Lowercase, Variable)>,
    path: &mut Vec<Variable>,
    problems: &mut Vec<Problem>,
    Ghost(fuel): Ghost<nat>,
) -> (r: Vec<(Lowercase, ErrorType)>)
    requires
        subs@.wf(),
        fields_below(fields.deep_view(), subs@.len()),
        model_field_errs(subs@, fields.deep_view(), old(path)@, 0, Seq::empty(), Seq::empty(), fuel) is Some,
    ensures
        final(path)@ == old(path)@,
        labelled_model(r@) == model_field_errs(
            subs@,
            fields.deep_view(),
            old(path)@,
            0,
            Seq::empty(),
            Seq::empty(),
            fuel,
        )->Some_0.0,
        final(problems)@ == old(problems)@ + model_field_errs(
            subs@,
            fields.deep_view(),
            old(path)@,
            0,
            Seq::empty(),
            Seq::empty(),
            fuel,
        )->Some_0.1,
    decreases fuel, 0int,
{
    let ghost target = model_field_errs(subs@, fields.deep_view(), path@, 0, Seq::empty(), Seq::empty(), fuel);
    let ghost path0 = path@;
    let ghost base = problems@;
    let ghost mut pacc: Seq<Problem> = Seq::empty();
    let mut out: Vec<(Lowercase, ErrorType)> = Vec::new();
    assert(labelled_model(out@) =~= Seq::empty());
    assert(base =~= base + pacc);
    let mut i: usize = 0;
    while i < fields.len()
        invariant
            i <= fields.len(),
            path@ == path0,
            problems@ == base + pacc,
            model_field_errs(subs@, fields.deep_view(), path0, i as int, labelled_model(out@), pacc, fuel)
                == target,
        decreases fields.len() - i,
    {
        let (name, var) = fields[i];
        assert(fields.deep_view()[i as int] == (name, var));
        assert(var_below(subs@.len())(fields.deep_view()[i as int].1));
        let e = var_to_err_type(subs, var, path, problems, Ghost((fuel - 1) as nat));
        let ghost p = model_var_err(subs@, var, path0, (fuel - 1) as nat)->Some_0.1;
        proof {
            lemma_labelled_model(out);
        }
        out = insert(out, name, e);
        proof {
            lemma_labelled_model(out);
            assert(problems@ =~= base + (pacc + p));
            pacc = pacc + p;
        }
        i += 1;
    }
    out
}

/// Reads back the types of the payloads of `tags`, as a map from tag to
/// payload types.
#[verifier::loop_isolation(false)]
fn tag_err_types(
    subs: &Subs,
    tags: &Vec<(TagName, Vec<Variable>)>,
    path: &mut Vec<Variable>,
    problems: &mut Vec<Problem>,
    Ghost(fuel): Ghost<nat>,
) -> (r: Vec<(TagName, Vec<ErrorType>)>)
    requires
        subs@.wf(),
        tags_below(tags.deep_view(), subs@.len()),
        model_tag_errs(subs@, tags.deep_view(), old(path)@, 0, Seq::empty(), Seq::empty(), fuel) is Some,
    ensures
        final(path)@ == old(path)@,
        tag_errs_model(r@) == model_tag_errs(
            subs@,
            tags.deep_view(),
            old(path)@,
            0,
            Seq::empty(),
            Seq::empty(),
            fuel,
        )->Some_0.0,
        final(problems)@ == old(problems)@ + model_tag_errs(
            subs@,
            tags.deep_view(),
            old(path)@,
            0,
            Seq::empty(),
            Seq::empty(),
            fuel,
        )->Some_0.1,
    decreases fuel, 0int,
{
    let ghost target = model_tag_errs(subs@, tags.deep_view(), path@, 0, Seq::empty(), Seq::empty(), fuel);
    let ghost path0 = path@;
    let ghost base = problems@;
    let ghost mut pacc: Seq<Problem> = Seq::empty();
    let mut out: Vec<(TagName, Vec<ErrorType>)> = Vec::new();
    assert(tag_errs_model(out@) =~= Seq::empty());
    assert(base =~= base + pacc);
    let mut i: usize = 0;
    while i < tags.len()
        invariant
            i <= tags.len(),
            path@ == path0,
            problems@ == base + pacc,
            model_tag_errs(subs@, tags.deep_view(), path0, i as int, tag_errs_model(out@), pacc, fuel) == target,
        decreases tags.len() - i,
    {
        let name = tags[i].0;
        let payload = &tags[i].1;
        assert(tags.deep_view()[i as int].1 =~= payload@);
        assert(list_below(subs@.len())(tags.deep_view()[i as int].1));
        let errs = err_types_of(subs, payload, path, problems, Ghost((fuel - 1) as nat));
        let ghost p = model_errs(subs@, payload@, path0, 0, Seq::empty(), Seq::empty(), (fuel - 1) as nat)->Some_0.1;
        proof {
            lemma_tag_errs_model(out);
            lemma_errs_model(errs);
        }
        out = insert(out, name, errs);
        proof {
            lemma_tag_errs_model(out);
            assert(problems@ =~= base + (pacc + p));
            pacc = pacc + p;
        }
        i += 1;
    }
    out
}

impl Subs {
    /// The type that `var` stands for, as it is reported in an error, and
    /// the problems found in it, in the order they are met.  A class met
    /// again inside itself is reported as an infinite type.
    pub fn var_to_error_type(&self, var: Variable) -> (r: (ErrorType, Vec<Problem>))
        requires
            self@.wf(),
            var < self@.len(),
            error_type_returns(self@, var),
        ensures
            (r.0.deep_view(), r.1@) == error_type_result(self@, var),
    {
        let mut path: Vec<Variable> = Vec::new();
        let mut problems: Vec<Problem> = Vec::new();
        let t = var_to_err_type(self, var, &mut path, &mut problems, Ghost(error_fuel(self@, var)));
        assert(problems@ =~= Seq::<Problem>::empty() + problems@);
        (t, problems)
    }
}

} // verus!
