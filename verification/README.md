# Verified type unification

The unifier of the Roc type checker, written in Verus and proved against a
mathematical model.

Type variables live in a store (`Subs`): a union-find structure whose classes
carry a descriptor (content, rank, mark, copy). Unifying two variables walks
their contents: flexible and rigid variables, aliases, records and tag unions
with their extension rows, functions, applications and uniqueness attributes.
It unifies the parts, merges the classes, and reports mismatches. When it
fails, the types of both variables are read back for the error report and both
classes become one class that holds an error.

## Layout

- `src/types.rs`: contents, descriptors and their models.
- `src/maps.rs`: maps held as vectors of pairs, with lookup laws for insert,
  union, relative complement and the shared part of two maps.
- `src/subs.rs`: the store, its model, snapshots, and the walks along record
  and tag-union extensions.
- `src/model.rs`: the semantics of unification as spec functions over the
  store's model. Each step takes a fuel argument; a step whose fuel runs out,
  or on which the algorithm would panic, has no result.
- `src/unify.rs`, `src/flat_type.rs`, `src/record.rs`, `src/tag_union.rs`:
  the executable unifier; each function is proved to do what its model step
  says, to keep the store well formed, never to split a class, and only to
  append newly created variables to the pool.
- `src/error_type.rs`: reading a type back from the store for error reports.
- `src/fuel.rs`: the model's result does not depend on the fuel it is given,
  so the contracts of `unify_pool`, `unify` and `var_to_error_type` pin their
  results.
- `tests/`: scenarios on concrete stores.
