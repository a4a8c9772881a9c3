use lib::error_type::{ErrorType, TypeExt};
use lib::maps::{find, get_shared, insert, relative_complement, union};
use lib::subs::Subs;
use lib::types::{
    Bool, Content, Descriptor, FlatType, Mismatch, Problem, Variable, EMPTY_RECORD, EMPTY_TAG_UNION, MARK_NONE,
    MARK_OCCURS,
};
use lib::unify::{merge, unify, unify_pool, Context, Unified};

fn var_with(subs: &mut Subs, content: Content) -> Variable {
    subs.fresh(Descriptor::from_content(content))
}

fn flex(subs: &mut Subs) -> Variable {
    var_with(subs, Content::FlexVar(None))
}

fn apply(subs: &mut Subs, symbol: u64, args: Vec<Variable>) -> Variable {
    var_with(subs, Content::Structure(FlatType::Apply(symbol, args)))
}

#[test]
fn unify_with_itself_succeeds_and_changes_nothing() {
    let mut subs = Subs::new();
    let a = apply(&mut subs, 7, vec![]);
    let len = subs.len();
    let result = unify(&mut subs, a, a);
    assert!(matches!(result, Unified::Success(ref pool) if pool.is_empty()));
    assert_eq!(subs.len(), len);
    assert_eq!(subs.content(a), &Content::Structure(FlatType::Apply(7, vec![])));
}

#[test]
fn unify_pool_of_one_class_reports_nothing() {
    let mut subs = Subs::new();
    let a = flex(&mut subs);
    let b = flex(&mut subs);
    let mut pool = Vec::new();
    assert!(unify_pool(&mut subs, &mut pool, a, b).is_empty());
    assert!(subs.equivalent(a, b));
    let len = subs.len();
    assert!(unify_pool(&mut subs, &mut pool, b, a).is_empty());
    assert!(pool.is_empty());
    assert_eq!(subs.len(), len);
}

#[test]
fn flex_takes_the_structure() {
    let mut subs = Subs::new();
    let a = flex(&mut subs);
    let b = apply(&mut subs, 3, vec![]);
    let mut pool = Vec::new();
    let problems = unify_pool(&mut subs, &mut pool, a, b);
    assert!(problems.is_empty());
    assert!(subs.equivalent(a, b));
    assert_eq!(subs.content(a), &Content::Structure(FlatType::Apply(3, vec![])));
}

#[test]
fn flex_keeps_its_name_against_an_unnamed_flex() {
    let mut subs = Subs::new();
    let a = var_with(&mut subs, Content::FlexVar(Some(3)));
    let b = flex(&mut subs);
    let mut pool = Vec::new();
    assert!(unify_pool(&mut subs, &mut pool, a, b).is_empty());
    assert_eq!(subs.content(b), &Content::FlexVar(Some(3)));
}

#[test]
fn named_flex_defers_to_the_other_name() {
    let mut subs = Subs::new();
    let a = var_with(&mut subs, Content::FlexVar(Some(3)));
    let b = var_with(&mut subs, Content::FlexVar(Some(4)));
    let mut pool = Vec::new();
    assert!(unify_pool(&mut subs, &mut pool, a, b).is_empty());
    assert_eq!(subs.content(a), &Content::FlexVar(Some(4)));
}

#[test]
fn rigid_wins_over_flex() {
    let mut subs = Subs::new();
    let a = var_with(&mut subs, Content::RigidVar(5));
    let b = flex(&mut subs);
    let mut pool = Vec::new();
    assert!(unify_pool(&mut subs, &mut pool, a, b).is_empty());
    assert_eq!(subs.content(b), &Content::RigidVar(5));
}

#[test]
fn rigid_with_rigid_of_same_name_is_a_mismatch() {
    let mut subs = Subs::new();
    let a = var_with(&mut subs, Content::RigidVar(5));
    let b = var_with(&mut subs, Content::RigidVar(5));
    let mut pool = Vec::new();
    let problems = unify_pool(&mut subs, &mut pool, a, b);
    assert_eq!(problems, vec![Mismatch::TypeMismatch]);
    assert!(!subs.equivalent(a, b));
}

#[test]
fn rigid_with_structure_is_a_mismatch() {
    let mut subs = Subs::new();
    let a = var_with(&mut subs, Content::RigidVar(5));
    let b = apply(&mut subs, 1, vec![]);
    let mut pool = Vec::new();
    assert_eq!(unify_pool(&mut subs, &mut pool, a, b), vec![Mismatch::TypeMismatch]);
}

#[test]
fn error_propagates() {
    let mut subs = Subs::new();
    let a = var_with(&mut subs, Content::Error);
    let b = apply(&mut subs, 1, vec![]);
    let c = apply(&mut subs, 2, vec![]);
    let d = var_with(&mut subs, Content::Error);
    let mut pool = Vec::new();
    assert!(unify_pool(&mut subs, &mut pool, a, b).is_empty());
    assert_eq!(subs.content(b), &Content::Error);
    assert!(unify_pool(&mut subs, &mut pool, c, d).is_empty());
    assert_eq!(subs.content(c), &Content::Error);
}

#[test]
fn applications_of_one_constructor_unify_their_arguments() {
    let mut subs = Subs::new();
    let x = flex(&mut subs);
    let y = apply(&mut subs, 9, vec![]);
    let a = apply(&mut subs, 1, vec![x]);
    let b = apply(&mut subs, 1, vec![y]);
    let mut pool = Vec::new();
    assert!(unify_pool(&mut subs, &mut pool, a, b).is_empty());
    assert!(subs.equivalent(x, y));
    assert!(subs.equivalent(a, b));
    assert_eq!(subs.content(a), &Content::Structure(FlatType::Apply(1, vec![y])));
}

#[test]
fn applications_of_two_constructors_fail_with_both_types() {
    let mut subs = Subs::new();
    let a = apply(&mut subs, 1, vec![]);
    let b = apply(&mut subs, 2, vec![]);
    let result = unify(&mut subs, a, b);
    match result {
        Unified::Failure(pool, t1, t2) => {
            assert!(pool.is_empty());
            assert_eq!(t1, ErrorType::Type(1, vec![]));
            assert_eq!(t2, ErrorType::Type(2, vec![]));
        },
        other => panic!("expected a failure, got {:?}", other),
    }
    assert!(subs.equivalent(a, b));
    assert_eq!(subs.content(a), &Content::Error);
}

#[test]
fn functions_of_two_arities_are_a_mismatch() {
    let mut subs = Subs::new();
    let x = flex(&mut subs);
    let y = flex(&mut subs);
    let r = flex(&mut subs);
    let f = var_with(&mut subs, Content::Structure(FlatType::Func(vec![x], r)));
    let g = var_with(&mut subs, Content::Structure(FlatType::Func(vec![x, y], r)));
    let mut pool = Vec::new();
    assert_eq!(unify_pool(&mut subs, &mut pool, f, g), vec![Mismatch::TypeMismatch]);
    assert!(!subs.equivalent(x, y));
}

#[test]
fn functions_unify_arguments_and_results() {
    let mut subs = Subs::new();
    let x = flex(&mut subs);
    let y = apply(&mut subs, 4, vec![]);
    let r1 = flex(&mut subs);
    let r2 = apply(&mut subs, 5, vec![]);
    let f = var_with(&mut subs, Content::Structure(FlatType::Func(vec![x], r1)));
    let g = var_with(&mut subs, Content::Structure(FlatType::Func(vec![y], r2)));
    let mut pool = Vec::new();
    assert!(unify_pool(&mut subs, &mut pool, f, g).is_empty());
    assert!(subs.equivalent(x, y));
    assert!(subs.equivalent(r1, r2));
    assert_eq!(subs.content(f), &Content::Structure(FlatType::Func(vec![y], r2)));
}

#[test]
fn function_mismatches_in_result_and_argument_are_both_reported() {
    let mut subs = Subs::new();
    let a1 = apply(&mut subs, 1, vec![]);
    let a2 = apply(&mut subs, 2, vec![]);
    let r1 = apply(&mut subs, 3, vec![]);
    let r2 = apply(&mut subs, 4, vec![]);
    let f = var_with(&mut subs, Content::Structure(FlatType::Func(vec![a1], r1)));
    let g = var_with(&mut subs, Content::Structure(FlatType::Func(vec![a2], r2)));
    let mut pool = Vec::new();
    let problems = unify_pool(&mut subs, &mut pool, f, g);
    assert_eq!(problems, vec![Mismatch::TypeMismatch, Mismatch::TypeMismatch]);
    assert!(!subs.equivalent(f, g));
}

#[test]
fn records_with_the_same_fields_unify_them() {
    let mut subs = Subs::new();
    let x = flex(&mut subs);
    let y = apply(&mut subs, 6, vec![]);
    let r1 = var_with(&mut subs, Content::Structure(FlatType::Record(vec![(1, x)], EMPTY_RECORD)));
    let r2 = var_with(&mut subs, Content::Structure(FlatType::Record(vec![(1, y)], EMPTY_RECORD)));
    let mut pool = Vec::new();
    assert!(unify_pool(&mut subs, &mut pool, r1, r2).is_empty());
    assert!(subs.equivalent(x, y));
    assert!(pool.is_empty());
    assert_eq!(subs.content(r2), &Content::Structure(FlatType::Record(vec![(1, x)], EMPTY_RECORD)));
}

#[test]
fn open_record_takes_the_missing_fields_through_its_extension() {
    let mut subs = Subs::new();
    let x = flex(&mut subs);
    let y = flex(&mut subs);
    let z = flex(&mut subs);
    let e1 = flex(&mut subs);
    let r1 = var_with(&mut subs, Content::Structure(FlatType::Record(vec![(1, x)], e1)));
    let r2 = var_with(&mut subs, Content::Structure(FlatType::Record(vec![(1, y), (2, z)], EMPTY_RECORD)));
    let sub_record = subs.len();
    let mut pool = Vec::new();
    assert!(unify_pool(&mut subs, &mut pool, r1, r2).is_empty());
    assert_eq!(pool, vec![sub_record]);
    assert!(subs.equivalent(e1, sub_record));
    assert_eq!(subs.content(e1), &Content::Structure(FlatType::Record(vec![(2, z)], EMPTY_RECORD)));
    assert!(subs.equivalent(x, y));
    assert!(subs.equivalent(r1, r2));
    assert_eq!(subs.content(r1), &Content::Structure(FlatType::Record(vec![(1, x), (2, z)], EMPTY_RECORD)));
}

#[test]
fn closed_record_missing_a_field_fails() {
    let mut subs = Subs::new();
    let x = flex(&mut subs);
    let y = flex(&mut subs);
    let z = flex(&mut subs);
    let r1 = var_with(&mut subs, Content::Structure(FlatType::Record(vec![(1, x)], EMPTY_RECORD)));
    let r2 = var_with(&mut subs, Content::Structure(FlatType::Record(vec![(1, y), (2, z)], EMPTY_RECORD)));
    let sub_record = subs.len();
    match unify(&mut subs, r1, r2) {
        Unified::Failure(pool, t1, t2) => {
            assert_eq!(pool, vec![sub_record]);
            assert_eq!(t1, ErrorType::Record(vec![(1, ErrorType::FlexVar(None))], TypeExt::Closed));
            assert_eq!(
                t2,
                ErrorType::Record(vec![(1, ErrorType::FlexVar(None)), (2, ErrorType::FlexVar(None))], TypeExt::Closed)
            );
        },
        other => panic!("expected a failure, got {:?}", other),
    }
    // the fields are unified only once the extensions are
    assert!(!subs.equivalent(x, y));
    assert!(subs.equivalent(r1, r2));
}

#[test]
fn empty_record_meets_a_record_of_no_fields_through_its_extension() {
    let mut subs = Subs::new();
    let ext = flex(&mut subs);
    let r = var_with(&mut subs, Content::Structure(FlatType::Record(vec![], ext)));
    let e = var_with(&mut subs, Content::Structure(FlatType::EmptyRecord));
    let mut pool = Vec::new();
    assert!(unify_pool(&mut subs, &mut pool, e, r).is_empty());
    assert!(subs.equivalent(e, ext));
    assert!(!subs.equivalent(e, r));
    assert_eq!(subs.content(ext), &Content::Structure(FlatType::EmptyRecord));
}

#[test]
fn tag_unions_with_the_same_tags_unify_payloads() {
    let mut subs = Subs::new();
    let x = flex(&mut subs);
    let y = apply(&mut subs, 8, vec![]);
    let t1 = var_with(&mut subs, Content::Structure(FlatType::TagUnion(vec![(1, vec![x])], EMPTY_TAG_UNION)));
    let t2 = var_with(&mut subs, Content::Structure(FlatType::TagUnion(vec![(1, vec![y])], EMPTY_TAG_UNION)));
    let mut pool = Vec::new();
    assert!(unify_pool(&mut subs, &mut pool, t1, t2).is_empty());
    assert!(subs.equivalent(x, y));
    assert_eq!(subs.content(t1), &Content::Structure(FlatType::TagUnion(vec![(1, vec![x])], EMPTY_TAG_UNION)));
}

#[test]
fn tag_payloads_of_two_lengths_are_a_mismatch() {
    let mut subs = Subs::new();
    let x = flex(&mut subs);
    let y = flex(&mut subs);
    let w = flex(&mut subs);
    let t1 = var_with(&mut subs, Content::Structure(FlatType::TagUnion(vec![(1, vec![x])], EMPTY_TAG_UNION)));
    let t2 = var_with(&mut subs, Content::Structure(FlatType::TagUnion(vec![(1, vec![y, w])], EMPTY_TAG_UNION)));
    let mut pool = Vec::new();
    assert_eq!(unify_pool(&mut subs, &mut pool, t1, t2), vec![Mismatch::TypeMismatch]);
    // the payloads are unified as far as both go before the check
    assert!(subs.equivalent(x, y));
    assert!(!subs.equivalent(t1, t2));
}

#[test]
fn failed_extension_unification_is_rolled_back() {
    let mut subs = Subs::new();
    let a = flex(&mut subs);
    let blue = var_with(&mut subs, Content::Structure(FlatType::TagUnion(vec![(10, vec![])], a)));
    let red_green = var_with(
        &mut subs,
        Content::Structure(FlatType::TagUnion(vec![(11, vec![]), (12, vec![])], EMPTY_TAG_UNION)),
    );
    let first_new = subs.len();
    let mut pool = Vec::new();
    let problems = unify_pool(&mut subs, &mut pool, blue, red_green);
    assert_eq!(problems, vec![Mismatch::TypeMismatch]);
    assert_eq!(pool, vec![first_new, first_new + 1, first_new + 2]);
    assert_eq!(subs.len(), first_new + 3);
    // the extension `a` was unified with the other union's tags, then rolled back
    assert!(!subs.equivalent(a, first_new + 2));
    assert_eq!(subs.content(a), &Content::FlexVar(None));
}

#[test]
fn recursive_tag_union_against_a_plain_one_is_a_mismatch() {
    let mut subs = Subs::new();
    let rec = flex(&mut subs);
    let t1 = var_with(
        &mut subs,
        Content::Structure(FlatType::RecursiveTagUnion(rec, vec![(1, vec![])], EMPTY_TAG_UNION)),
    );
    let t2 = var_with(&mut subs, Content::Structure(FlatType::TagUnion(vec![(1, vec![])], EMPTY_TAG_UNION)));
    let mut pool = Vec::new();
    assert_eq!(unify_pool(&mut subs, &mut pool, t1, t2), vec![Mismatch::TypeMismatch]);
    // the other way round it unifies, and the result is recursive
    assert!(unify_pool(&mut subs, &mut pool, t2, t1).is_empty());
    assert_eq!(
        subs.content(t1),
        &Content::Structure(FlatType::RecursiveTagUnion(rec, vec![(1, vec![])], EMPTY_TAG_UNION))
    );
}

#[test]
fn shared_attributes_unify() {
    let mut subs = Subs::new();
    let a = var_with(&mut subs, Content::Structure(FlatType::Boolean(Bool::Shared)));
    let b = var_with(&mut subs, Content::Structure(FlatType::Boolean(Bool::Shared)));
    let mut pool = Vec::new();
    assert!(unify_pool(&mut subs, &mut pool, a, b).is_empty());
    assert!(subs.equivalent(a, b));
    assert!(subs.var_is_shared(a));
}

#[test]
fn shared_attribute_makes_the_container_shared() {
    let mut subs = Subs::new();
    let shared = var_with(&mut subs, Content::Structure(FlatType::Boolean(Bool::Shared)));
    let cvar = flex(&mut subs);
    let mvar = flex(&mut subs);
    let container = var_with(&mut subs, Content::Structure(FlatType::Boolean(Bool::Container(cvar, vec![mvar]))));
    let mut pool = Vec::new();
    assert!(unify_pool(&mut subs, &mut pool, shared, container).is_empty());
    assert!(subs.equivalent(shared, cvar));
    assert!(subs.equivalent(shared, mvar));
    assert!(subs.equivalent(shared, container));
    assert!(subs.var_is_shared(container));
}

#[test]
fn containers_join_their_member_roots() {
    let mut subs = Subs::new();
    let c1 = flex(&mut subs);
    let c2 = flex(&mut subs);
    let m1 = flex(&mut subs);
    let m2 = flex(&mut subs);
    let shared = var_with(&mut subs, Content::Structure(FlatType::Boolean(Bool::Shared)));
    let a = var_with(&mut subs, Content::Structure(FlatType::Boolean(Bool::Container(c1, vec![m1, shared]))));
    let b = var_with(&mut subs, Content::Structure(FlatType::Boolean(Bool::Container(c2, vec![m2, m1]))));
    let mut pool = Vec::new();
    assert!(unify_pool(&mut subs, &mut pool, a, b).is_empty());
    assert!(subs.equivalent(c1, c2));
    // each root once, without the shared one
    assert_eq!(subs.content(a), &Content::Structure(FlatType::Boolean(Bool::Container(c1, vec![m1, m2]))));
}

#[test]
fn alias_wins_over_flex() {
    let mut subs = Subs::new();
    let arg = flex(&mut subs);
    let real = apply(&mut subs, 5, vec![arg]);
    let alias = var_with(&mut subs, Content::Alias(20, vec![(1, arg)], real));
    let f = flex(&mut subs);
    let mut pool = Vec::new();
    assert!(unify_pool(&mut subs, &mut pool, alias, f).is_empty());
    assert_eq!(subs.content(f), &Content::Alias(20, vec![(1, arg)], real));
}

#[test]
fn alias_against_a_structure_unifies_its_real_type() {
    let mut subs = Subs::new();
    let real = apply(&mut subs, 5, vec![]);
    let alias = var_with(&mut subs, Content::Alias(20, vec![], real));
    let other = apply(&mut subs, 5, vec![]);
    let mut pool = Vec::new();
    assert!(unify_pool(&mut subs, &mut pool, alias, other).is_empty());
    assert!(subs.equivalent(real, other));
    assert!(!subs.equivalent(alias, other));
    // and the other way round, through the structure's case for aliases
    let other2 = apply(&mut subs, 6, vec![]);
    let real2 = flex(&mut subs);
    let alias2 = var_with(&mut subs, Content::Alias(21, vec![], real2));
    assert!(unify_pool(&mut subs, &mut pool, other2, alias2).is_empty());
    assert!(subs.equivalent(other2, real2));
}

#[test]
fn aliases_of_one_name_unify_their_arguments() {
    let mut subs = Subs::new();
    let x = flex(&mut subs);
    let y = apply(&mut subs, 3, vec![]);
    let real1 = apply(&mut subs, 5, vec![x]);
    let real2 = apply(&mut subs, 5, vec![y]);
    let a1 = var_with(&mut subs, Content::Alias(20, vec![(1, x)], real1));
    let a2 = var_with(&mut subs, Content::Alias(20, vec![(1, y)], real2));
    let mut pool = Vec::new();
    assert!(unify_pool(&mut subs, &mut pool, a1, a2).is_empty());
    assert!(subs.equivalent(x, y));
    assert!(subs.equivalent(a1, a2));
    assert_eq!(subs.content(a1), &Content::Alias(20, vec![(1, y)], real2));
}

#[test]
fn aliases_of_two_names_unify_their_real_types() {
    let mut subs = Subs::new();
    let real1 = apply(&mut subs, 5, vec![]);
    let real2 = apply(&mut subs, 6, vec![]);
    let a1 = var_with(&mut subs, Content::Alias(20, vec![], real1));
    let a2 = var_with(&mut subs, Content::Alias(21, vec![], real2));
    let mut pool = Vec::new();
    assert_eq!(unify_pool(&mut subs, &mut pool, a1, a2), vec![Mismatch::TypeMismatch]);
    assert!(!subs.equivalent(a1, a2));
}

#[test]
fn merge_joins_at_the_lower_rank() {
    let mut subs = Subs::new();
    let a = subs.fresh(Descriptor { content: Content::FlexVar(None), rank: 3, mark: 7, copy: None });
    let b = subs.fresh(Descriptor { content: Content::FlexVar(None), rank: 1, mark: 7, copy: Some(0) });
    let ctx = Context { first: a, first_desc: subs.get(a), second: b, second_desc: subs.get(b) };
    let problems = merge(&mut subs, &ctx, Content::RigidVar(9));
    assert!(problems.is_empty());
    assert!(subs.equivalent(a, b));
    assert_eq!(
        subs.get(b),
        Descriptor { content: Content::RigidVar(9), rank: 1, mark: MARK_NONE, copy: None }
    );
}

#[test]
fn cyclic_type_is_reported_infinite() {
    let mut subs = Subs::new();
    let v = subs.len();
    let created = apply(&mut subs, 7, vec![v]);
    assert_eq!(created, v);
    let (t, problems) = subs.var_to_error_type(v);
    assert_eq!(t, ErrorType::Type(7, vec![ErrorType::Infinite]));
    assert!(problems.is_empty());
}

#[test]
fn erroneous_type_is_reported_as_bad() {
    let mut subs = Subs::new();
    let e = var_with(&mut subs, Content::Structure(FlatType::Erroneous(Problem::InvalidModule)));
    let a = apply(&mut subs, 1, vec![]);
    match unify(&mut subs, e, a) {
        Unified::BadType(pool, problem) => {
            assert!(pool.is_empty());
            assert_eq!(problem, Problem::InvalidModule);
        },
        other => panic!("expected a bad type, got {:?}", other),
    }
    assert!(subs.equivalent(e, a));
    assert_eq!(subs.content(a), &Content::Error);
}

#[test]
fn error_type_of_an_open_record() {
    let mut subs = Subs::new();
    let x = apply(&mut subs, 2, vec![]);
    let ext = var_with(&mut subs, Content::FlexVar(Some(5)));
    let r = var_with(&mut subs, Content::Structure(FlatType::Record(vec![(1, x)], ext)));
    let (t, problems) = subs.var_to_error_type(r);
    assert_eq!(t, ErrorType::Record(vec![(1, ErrorType::Type(2, vec![]))], TypeExt::FlexOpen(Some(5))));
    assert!(problems.is_empty());
}

#[test]
fn error_type_of_a_record_over_a_record() {
    let mut subs = Subs::new();
    let x = apply(&mut subs, 2, vec![]);
    let y = apply(&mut subs, 3, vec![]);
    let inner = var_with(&mut subs, Content::Structure(FlatType::Record(vec![(1, y)], EMPTY_RECORD)));
    let alias = var_with(&mut subs, Content::Alias(30, vec![], inner));
    let outer = var_with(&mut subs, Content::Structure(FlatType::Record(vec![(1, x), (2, x)], alias)));
    let (t, _) = subs.var_to_error_type(outer);
    // the extension's own field wins, behind the alias
    assert_eq!(
        t,
        ErrorType::Record(
            vec![(2, ErrorType::Type(2, vec![])), (1, ErrorType::Type(3, vec![]))],
            TypeExt::Closed
        )
    );
}

#[test]
fn snapshot_rollback_restores_the_store() {
    let mut subs = Subs::new();
    let a = flex(&mut subs);
    let b = flex(&mut subs);
    let snapshot = subs.snapshot();
    subs.union(a, b, Descriptor::from_content(Content::Error));
    let _ = flex(&mut subs);
    assert!(subs.equivalent(a, b));
    subs.rollback_to(snapshot);
    assert!(!subs.equivalent(a, b));
    assert_eq!(subs.len(), 4);
    assert_eq!(subs.content(a), &Content::FlexVar(None));
}

#[test]
fn insert_then_find_gives_back_the_value() {
    let m: Vec<(u64, usize)> = vec![(1, 10), (2, 20)];
    let m = insert(m, 1, 11);
    assert_eq!(find(&m, 1), Some(11));
    assert_eq!(find(&m, 2), Some(20));
    assert_eq!(find(&m, 3), None);
    assert_eq!(m, vec![(2, 20), (1, 11)]);
}

#[test]
fn union_prefers_the_second_map() {
    let a: Vec<(u64, usize)> = vec![(1, 10), (2, 20)];
    let b: Vec<(u64, usize)> = vec![(2, 21), (3, 31)];
    let u = union(a, b);
    assert_eq!(find(&u, 1), Some(10));
    assert_eq!(find(&u, 2), Some(21));
    assert_eq!(find(&u, 3), Some(31));
    assert_eq!(u.len(), 3);
}

#[test]
fn relative_complement_keeps_what_the_other_lacks() {
    let a: Vec<(u64, usize)> = vec![(1, 10), (2, 20), (3, 30)];
    let b: Vec<(u64, usize)> = vec![(2, 0), (4, 0)];
    assert_eq!(relative_complement(&a, &b), vec![(1, 10), (3, 30)]);
    assert_eq!(relative_complement(&b, &a), vec![(4, 0)]);
}

#[test]
fn get_shared_pairs_the_values_of_common_keys() {
    let a: Vec<(u64, usize)> = vec![(1, 10), (2, 20), (3, 30)];
    let b: Vec<(u64, usize)> = vec![(3, 33), (4, 44), (1, 11)];
    assert_eq!(get_shared(&a, &b), vec![(3, (30, 33)), (1, (10, 11))]);
}

#[test]
fn unification_never_splits_a_class() {
    let mut subs = Subs::new();
    let a = flex(&mut subs);
    let b = flex(&mut subs);
    let c = apply(&mut subs, 1, vec![]);
    let d = apply(&mut subs, 2, vec![]);
    let mut pool = Vec::new();
    assert!(unify_pool(&mut subs, &mut pool, a, b).is_empty());
    assert!(!unify_pool(&mut subs, &mut pool, c, d).is_empty());
    assert!(unify_pool(&mut subs, &mut pool, a, c).is_empty());
    assert!(subs.equivalent(a, b));
    assert!(subs.equivalent(b, c));
    assert!(!subs.equivalent(c, d));
}

fn unify_two_open_records() -> (Vec<Mismatch>, Vec<Variable>, Content) {
    let mut subs = Subs::new();
    let x = flex(&mut subs);
    let e1 = flex(&mut subs);
    let e2 = flex(&mut subs);
    let r1 = var_with(&mut subs, Content::Structure(FlatType::Record(vec![(1, x)], e1)));
    let y = apply(&mut subs, 4, vec![]);
    let r2 = var_with(&mut subs, Content::Structure(FlatType::Record(vec![(2, y)], e2)));
    let mut pool = Vec::new();
    let problems = unify_pool(&mut subs, &mut pool, r1, r2);
    let content = subs.get(r1).content;
    (problems, pool, content)
}

#[test]
fn unification_is_deterministic() {
    let (problems, pool, content) = unify_two_open_records();
    assert!(problems.is_empty());
    // a fresh extension and one sub-record for each side
    assert_eq!(pool.len(), 3);
    assert_eq!(unify_two_open_records(), (problems, pool.clone(), content));
}

#[test]
fn class_marked_as_occurring_reads_as_infinite() {
    let mut subs = Subs::new();
    let v = subs.fresh(Descriptor { content: Content::FlexVar(None), rank: 0, mark: MARK_OCCURS, copy: None });
    let w = apply(&mut subs, 3, vec![v]);
    let (t, _) = subs.var_to_error_type(w);
    assert_eq!(t, ErrorType::Type(3, vec![ErrorType::Infinite]));
}

#[test]
fn error_type_of_a_function_over_an_alias_and_a_rigid_row() {
    let mut subs = Subs::new();
    let x = apply(&mut subs, 2, vec![]);
    let ext = var_with(&mut subs, Content::RigidVar(7));
    let tags = var_with(&mut subs, Content::Structure(FlatType::TagUnion(vec![(1, vec![x])], ext)));
    let real = apply(&mut subs, 5, vec![]);
    let alias = var_with(&mut subs, Content::Alias(20, vec![(1, real)], real));
    let f = var_with(&mut subs, Content::Structure(FlatType::Func(vec![alias], tags)));
    let (t, problems) = subs.var_to_error_type(f);
    assert_eq!(
        t,
        ErrorType::Function(
            vec![ErrorType::Alias(20, vec![(1, ErrorType::Type(5, vec![]))], Box::new(ErrorType::Type(5, vec![])))],
            Box::new(ErrorType::TagUnion(vec![(1, vec![ErrorType::Type(2, vec![])])], TypeExt::RigidOpen(7))),
        )
    );
    assert!(problems.is_empty());
}

#[test]
fn error_type_of_a_recursive_tag_union() {
    let mut subs = Subs::new();
    let rec = var_with(&mut subs, Content::FlexVar(Some(9)));
    let u = subs.len();
    let created = var_with(
        &mut subs,
        Content::Structure(FlatType::RecursiveTagUnion(rec, vec![(1, vec![u])], EMPTY_TAG_UNION)),
    );
    assert_eq!(created, u);
    let (t, _) = subs.var_to_error_type(u);
    assert_eq!(
        t,
        ErrorType::RecursiveTagUnion(
            Box::new(ErrorType::FlexVar(Some(9))),
            vec![(1, vec![ErrorType::Infinite])],
            TypeExt::Closed,
        )
    );
}

#[test]
fn error_type_of_an_attribute() {
    let mut subs = Subs::new();
    let b = var_with(&mut subs, Content::Structure(FlatType::Boolean(Bool::Shared)));
    let (t, problems) = subs.var_to_error_type(b);
    assert_eq!(t, ErrorType::Boolean(Bool::Shared));
    assert!(problems.is_empty());
}

#[test]
fn problems_are_reported_in_the_order_they_are_met() {
    let mut subs = Subs::new();
    let e1 = var_with(&mut subs, Content::Structure(FlatType::Erroneous(Problem::InvalidModule)));
    let e2 = var_with(&mut subs, Content::Structure(FlatType::Erroneous(Problem::Shadowed(3))));
    let r = var_with(&mut subs, Content::Structure(FlatType::Record(vec![(1, e1), (2, e2)], EMPTY_RECORD)));
    let (t, problems) = subs.var_to_error_type(r);
    assert_eq!(problems, vec![Problem::InvalidModule, Problem::Shadowed(3)]);
    assert_eq!(t, ErrorType::Record(vec![(1, ErrorType::Error), (2, ErrorType::Error)], TypeExt::Closed));
    let a = apply(&mut subs, 1, vec![]);
    match unify(&mut subs, r, a) {
        Unified::BadType(_, problem) => assert_eq!(problem, Problem::InvalidModule),
        other => panic!("expected a bad type, got {:?}", other),
    }
}

#[test]
fn structure_takes_a_flex_on_the_right() {
    let mut subs = Subs::new();
    let a = apply(&mut subs, 3, vec![]);
    let b = var_with(&mut subs, Content::FlexVar(Some(2)));
    let mut pool = Vec::new();
    assert!(unify_pool(&mut subs, &mut pool, a, b).is_empty());
    assert!(pool.is_empty());
    assert!(subs.equivalent(a, b));
    assert_eq!(subs.content(b), &Content::Structure(FlatType::Apply(3, vec![])));
}

#[test]
fn tags_are_gathered_through_aliases_of_the_extension() {
    let mut subs = Subs::new();
    let inner = var_with(&mut subs, Content::Structure(FlatType::TagUnion(vec![(2, vec![])], EMPTY_TAG_UNION)));
    let alias = var_with(&mut subs, Content::Alias(40, vec![], inner));
    let t1 = var_with(&mut subs, Content::Structure(FlatType::TagUnion(vec![(1, vec![])], alias)));
    let t2 = var_with(
        &mut subs,
        Content::Structure(FlatType::TagUnion(vec![(1, vec![]), (2, vec![])], EMPTY_TAG_UNION)),
    );
    let mut pool = Vec::new();
    assert!(unify_pool(&mut subs, &mut pool, t1, t2).is_empty());
    assert!(pool.is_empty());
    assert!(subs.equivalent(t1, t2));
    assert_eq!(
        subs.content(t1),
        &Content::Structure(FlatType::TagUnion(vec![(1, vec![]), (2, vec![])], EMPTY_TAG_UNION))
    );
}
