//! The store of type variables: a union-find structure over variables whose
//! classes carry a descriptor, with snapshots to roll back to.
//!
//! Each variable points straight at the root of its class; a union redirects
//! every member of the second class to the root of the first, and the root's
//! descriptor is the class's descriptor.
use vstd::prelude::*;
use crate::types::{
    Variable, Lowercase, TagName, Content, FlatType, Bool, Descriptor, ContentModel, FlatModel,
    BoolModel, DescModel, EMPTY_RECORD, EMPTY_TAG_UNION, fields_below, tags_below, var_below,
    list_below, copy_fields, copy_vars, lemma_content_below_mono,
};
use crate::maps::{map_union, union, lemma_union_all};

verus! {

/// Model of the store: the root of each variable, and a descriptor for each
/// variable of which only those at roots matter.
pub struct SubsModel {
    pub roots: Seq<Variable>,
    pub descs: Seq<DescModel>,
}

impl SubsModel {
    /// The number of variables.
    pub open spec fn len(self) -> nat {
        self.roots.len()
    }

    /// The root of the class of `v`.
    pub open spec fn root(self, v: Variable) -> Variable {
        self.roots[v as int]
    }

    /// The descriptor of the class of `v`.
    pub open spec fn get(self, v: Variable) -> DescModel {
        self.descs[self.roots[v as int] as int]
    }

    /// Whether `a` and `b` lie in one class.
    pub open spec fn equiv(self, a: Variable, b: Variable) -> bool {
        self.roots[a as int] == self.roots[b as int]
    }

    /// The store after the classes of `a` and `b` are joined under the root
    /// of `a`, with descriptor `d`.
    pub open spec fn union(self, a: Variable, b: Variable, d: DescModel) -> SubsModel {
        let ra = self.roots[a as int];
        let rb = self.roots[b as int];
        SubsModel {
            roots: Seq::new(self.roots.len(), |i: int| if self.roots[i] == rb { ra } else { self.roots[i] }),
            descs: self.descs.update(ra as int, d),
        }
    }

    /// The store after a new variable, alone in its class, with descriptor `d`.
    pub open spec fn fresh(self, d: DescModel) -> SubsModel {
        SubsModel { roots: self.roots.push(self.roots.len() as Variable), descs: self.descs.push(d) }
    }

    /// Each variable points at a root in range, and every descriptor mentions
    /// only variables in range.  The two reserved variables exist.
    pub open spec fn wf(self) -> bool {
        &&& self.roots.len() == self.descs.len()
        &&& self.roots.len() >= 2
        &&& forall|i: int| 0 <= i < self.roots.len() ==> #[trigger] self.roots[i] < self.roots.len()
        &&& forall|i: int| 0 <= i < self.roots.len() ==> self.roots[#[trigger] self.roots[i] as int] == self.roots[i]
        &&& forall|i: int| 0 <= i < self.descs.len() ==> #[trigger] self.descs[i].content.below(self.roots.len())
    }

    /// `later` has at least the variables of `self`, and every two variables
    /// of one class in `self` are of one class in `later`.
    pub open spec fn coarsens_to(self, later: SubsModel) -> bool {
        &&& later.len() >= self.len()
        &&& forall|a: Variable, b: Variable|
            a < self.len() && b < self.len() && #[trigger] self.equiv(a, b) ==> #[trigger] later.equiv(a, b)
    }

    /// The class of `v` holds the shared uniqueness attribute.
    pub open spec fn is_shared(self, v: Variable) -> bool {
        self.get(v).content == ContentModel::Structure(FlatModel::Boolean(BoolModel::Shared))
    }
}

/// A store of type variables.
pub struct Subs {
    roots: Vec<Variable>,
    descs: Vec<Descriptor>,
}

/// A saved state of a store, to roll back to.
pub struct Snapshot {
    roots: Vec<Variable>,
    descs: Vec<Descriptor>,
}

impl View for Subs {
    type V = SubsModel;

    closed spec fn view(&self) -> SubsModel {
        SubsModel { roots: self.roots@, descs: self.descs@.map_values(|d: Descriptor| d@) }
    }
}

impl View for Snapshot {
    type V = SubsModel;

    closed spec fn view(&self) -> SubsModel {
        SubsModel { roots: self.roots@, descs: self.descs@.map_values(|d: Descriptor| d@) }
    }
}

/// Fields of a record gathered along the chain of its extensions.
pub struct RecordStructure {
    pub fields: Vec<(Lowercase, Variable)>,
    pub ext: Variable,
}

/// Coarsening is reflexive.
pub proof fn lemma_coarsens_refl(s: SubsModel)
    ensures
        s.coarsens_to(s),
{
}

/// Coarsening is transitive.
pub proof fn lemma_coarsens_trans(s1: SubsModel, s2: SubsModel, s3: SubsModel)
    requires
        s1.coarsens_to(s2),
        s2.coarsens_to(s3),
    ensures
        s1.coarsens_to(s3),
{
    assert forall|a: Variable, b: Variable|
        a < s1.len() && b < s1.len() && #[trigger] s1.equiv(a, b) implies #[trigger] s3.equiv(a, b) by {
        assert(s2.equiv(a, b));
    }
}

/// A union joins the two classes, keeps every class joined, and keeps the
/// store well formed when the new descriptor mentions variables in range.
pub proof fn lemma_union(s: SubsModel, a: Variable, b: Variable, d: DescModel)
    requires
        s.wf(),
        a < s.len(),
        b < s.len(),
        d.content.below(s.len()),
    ensures
        s.union(a, b, d).wf(),
        s.union(a, b, d).len() == s.len(),
        s.union(a, b, d).equiv(a, b),
        s.union(a, b, d).get(a) == d,
        s.coarsens_to(s.union(a, b, d)),
{
    let t = s.union(a, b, d);
    let ra = s.roots[a as int];
    let rb = s.roots[b as int];
    assert(s.roots[ra as int] == ra);
    assert forall|i: int| 0 <= i < t.roots.len() implies t.roots[#[trigger] t.roots[i] as int] == t.roots[i] by {
        let x = s.roots[i];
        assert(s.roots[x as int] == x);
    }
    assert forall|i: int| 0 <= i < t.descs.len() implies #[trigger] t.descs[i].content.below(t.roots.len()) by {
        if i != ra {
            assert(s.descs[i].content.below(s.roots.len()));
        }
    }
}

/// Adding a variable keeps the store well formed and every class joined.
pub proof fn lemma_fresh(s: SubsModel, d: DescModel)
    requires
        s.wf(),
        d.content.below(s.len() + 1),
        s.len() < usize::MAX,
    ensures
        s.fresh(d).wf(),
        s.fresh(d).len() == s.len() + 1,
        s.coarsens_to(s.fresh(d)),
        s.fresh(d).get(s.len() as Variable) == d,
        forall|v: Variable| v < s.len() ==> s.fresh(d).get(v) == #[trigger] s.get(v),
{
    let t = s.fresh(d);
    assert forall|i: int| 0 <= i < t.descs.len() implies #[trigger] t.descs[i].content.below(t.roots.len()) by {
        if i < s.descs.len() {
            assert(s.descs[i].content.below(s.roots.len()));
            lemma_content_below_mono(s.descs[i].content, s.len(), t.len());
        }
    }
    assert forall|i: int| 0 <= i < t.roots.len() implies t.roots[#[trigger] t.roots[i] as int] == t.roots[i] by {
        if i < s.roots.len() {
            assert(s.roots[s.roots[i] as int] == s.roots[i]);
        }
    }
}

/// In a well-formed store, the descriptor of any variable mentions only
/// variables in range.
pub proof fn lemma_get_below(s: SubsModel, v: Variable)
    requires
        s.wf(),
        v < s.len(),
    ensures
        s.get(v).content.below(s.len()),
        s.root(v) < s.len(),
{
    assert(s.roots[v as int] < s.roots.len());
    assert(s.descs[s.roots[v as int] as int].content.below(s.roots.len()));
}

impl Subs {
    /// A store that holds only the two reserved variables: the empty record
    /// and the empty tag union.
    pub fn new() -> (r: Subs)
        ensures
            r@.wf(),
            r@.len() == 2,
            !r@.equiv(EMPTY_RECORD, EMPTY_TAG_UNION),
            r@.get(EMPTY_RECORD).content == ContentModel::Structure(FlatModel::EmptyRecord),
            r@.get(EMPTY_TAG_UNION).content == ContentModel::Structure(FlatModel::EmptyTagUnion),
    {
        let mut roots: Vec<Variable> = Vec::new();
        let mut descs: Vec<Descriptor> = Vec::new();
        roots.push(EMPTY_RECORD);
        descs.push(Descriptor::from_content(Content::Structure(FlatType::EmptyRecord)));
        roots.push(EMPTY_TAG_UNION);
        descs.push(Descriptor::from_content(Content::Structure(FlatType::EmptyTagUnion)));
        let r = Subs { roots, descs };
        assert(r@.descs[0].content.below(2));
        assert(r@.descs[1].content.below(2));
        r
    }

    /// The number of variables.
    pub fn len(&self) -> (r: usize)
        ensures
            r == self@.len(),
    {
        self.roots.len()
    }

    /// Adds a variable in a class of its own, with descriptor `desc`.
    pub fn fresh(&mut self, desc: Descriptor) -> (r: Variable)
        requires
            old(self)@.wf(),
            desc@.content.below(old(self)@.len() + 1),
        ensures
            final(self)@ == old(self)@.fresh(desc@),
            r == old(self)@.len(),
            final(self)@.wf(),
            final(self)@.len() == old(self)@.len() + 1,
            old(self)@.coarsens_to(final(self)@),
    {
        let ghost old_self = self@;
        let ghost d = desc@;
        let v = self.roots.len();
        let ghost old_descs = self.descs@;
        self.roots.push(v);
        self.descs.push(desc);
        assert(self.descs@.map_values(|d: Descriptor| d@) =~= old_descs.map_values(|d: Descriptor| d@).push(d));
        proof {
            assert(self.roots.len() <= usize::MAX);
            lemma_fresh(old_self, d);
        }
        v
    }

    /// The root of the class of `v`.
    pub fn get_root_key(&self, v: Variable) -> (r: Variable)
        requires
            self@.wf(),
            v < self@.len(),
        ensures
            r == self@.root(v),
            r < self@.len(),
    {
        self.roots[v]
    }

    /// The descriptor of the class of `v`.
    pub fn content(&self, v: Variable) -> (r: &Content)
        requires
            self@.wf(),
            v < self@.len(),
        ensures
            r@ == self@.get(v).content,
    {
        let root = self.roots[v];
        &self.descs[root].content
    }

    /// The mark of the class of `v`.
    pub fn get_mark(&self, v: Variable) -> (r: i32)
        requires
            self@.wf(),
            v < self@.len(),
        ensures
            r == self@.get(v).mark,
    {
        let root = self.roots[v];
        self.descs[root].mark
    }

    /// A copy of the descriptor of the class of `v`.
    pub fn get(&self, v: Variable) -> (r: Descriptor)
        requires
            self@.wf(),
            v < self@.len(),
        ensures
            r@ == self@.get(v),
    {
        let root = self.roots[v];
        self.descs[root].duplicate()
    }

    /// Whether `a` and `b` lie in one class.
    pub fn equivalent(&self, a: Variable, b: Variable) -> (r: bool)
        requires
            self@.wf(),
            a < self@.len(),
            b < self@.len(),
        ensures
            r == self@.equiv(a, b),
    {
        self.roots[a] == self.roots[b]
    }

    /// Joins the classes of `left` and `right` under the root of `left` and
    /// gives the joined class the descriptor `desc`.
    pub fn union(&mut self, left: Variable, right: Variable, desc: Descriptor)
        requires
            old(self)@.wf(),
            left < old(self)@.len(),
            right < old(self)@.len(),
            desc@.content.below(old(self)@.len()),
        ensures
            final(self)@ == old(self)@.union(left, right, desc@),
            final(self)@.wf(),
    {
        proof {
            lemma_union(self@, left, right, desc@);
        }
        let ghost old_roots = self.roots@;
        let ghost old_descs = self.descs@;
        let lr = self.roots[left];
        let rr = self.roots[right];
        let n = self.roots.len();
        let mut i: usize = 0;
        while i < n
            invariant
                n == old_roots.len(),
                self.roots@.len() == n,
                i <= n,
                self.descs@ == old_descs,
                lr < n,
                forall|j: int| 0 <= j < i ==> self.roots@[j] == (if old_roots[j] == rr { lr } else { old_roots[j] }),
                forall|j: int| i <= j < n ==> self.roots@[j] == old_roots[j],
            decreases n - i,
        {
            if self.roots[i] == rr {
                self.roots.set(i, lr);
            }
            i += 1;
        }
        self.descs.set(lr, desc);
        assert(self.roots@ =~= Seq::new(old_roots.len(), |j: int| if old_roots[j] == rr { lr } else { old_roots[j] }));
        assert(self.descs@.map_values(|d: Descriptor| d@) =~= old_descs.map_values(|d: Descriptor| d@).update(lr as int, desc@));
    }

    /// Whether the class of `v` holds the shared uniqueness attribute.
    pub fn var_is_shared(&self, v: Variable) -> (r: bool)
        requires
            self@.wf(),
            v < self@.len(),
        ensures
            r == self@.is_shared(v),
    {
        match self.content(v) {
            Content::Structure(FlatType::Boolean(Bool::Shared)) => true,
            _ => false,
        }
    }

    /// Saves the current state.
    pub fn snapshot(&self) -> (r: Snapshot)
        ensures
            r@ == self@,
    {
        let roots = copy_vars(&self.roots);
        let mut descs: Vec<Descriptor> = Vec::new();
        let mut i: usize = 0;
        while i < self.descs.len()
            invariant
                i <= self.descs@.len(),
                descs@.map_values(|d: Descriptor| d@) == self.descs@.map_values(|d: Descriptor| d@).take(i as int),
            decreases self.descs@.len() - i,
        {
            let ghost before = descs@;
            descs.push(self.descs[i].duplicate());
            assert(descs@.map_values(|d: Descriptor| d@) =~= before.map_values(|d: Descriptor| d@).push(self.descs@[i as int]@));
            i += 1;
            assert(descs@.map_values(|d: Descriptor| d@) =~= self.descs@.map_values(|d: Descriptor| d@).take(i as int));
        }
        assert(descs@.map_values(|d: Descriptor| d@) =~= self.descs@.map_values(|d: Descriptor| d@));
        Snapshot { roots, descs }
    }

    /// Returns to a saved state.
    pub fn rollback_to(&mut self, snapshot: Snapshot)
        ensures
            final(self)@ == snapshot@,
    {
        self.roots = snapshot.roots;
        self.descs = snapshot.descs;
    }

    /// Keeps the current state; the saved one is dropped.
    pub fn commit_snapshot(&mut self, snapshot: Snapshot)
        ensures
            final(self)@ == old(self)@,
    {
    }
}

/// The fields of a record gathered along its extensions, and the first
/// extension that is no record (`None` when the chain is longer than `fuel`).
pub open spec fn model_gather_fields(
    s: SubsModel,
    fields: Seq<(Lowercase, Variable)>,
    var: Variable,
    fuel: nat,
) -> Option<(Seq<(Lowercase, Variable)>, Variable)>
    decreases fuel,
{
    if fuel == 0 {
        None
    } else {
        match s.get(var).content {
            ContentModel::Structure(FlatModel::Record(sub, ext)) => model_gather_fields(
                s,
                map_union(fields, sub),
                ext,
                (fuel - 1) as nat,
            ),
            ContentModel::Alias(_, _, real_var) => model_gather_fields(s, fields, real_var, (fuel - 1) as nat),
            _ => Some((fields, var)),
        }
    }
}

/// The fields of the extension chain from `var` added to `fields`, and
/// `None` when the chain ends in the empty record or `Some` of the variable
/// where it ends otherwise (`None` overall when it is longer than `fuel`).
pub open spec fn model_chase_record(
    s: SubsModel,
    var: Variable,
    fields: Seq<(Lowercase, Variable)>,
    fuel: nat,
) -> Option<(Seq<(Lowercase, Variable)>, Option<Variable>)>
    decreases fuel,
{
    if fuel == 0 {
        None
    } else {
        match s.get(var).content {
            ContentModel::Structure(FlatModel::Record(sub, ext)) => model_chase_record(
                s,
                ext,
                map_union(fields, sub),
                (fuel - 1) as nat,
            ),
            ContentModel::Structure(FlatModel::EmptyRecord) => Some((fields, None)),
            ContentModel::Alias(_, _, real_var) => model_chase_record(s, real_var, fields, (fuel - 1) as nat),
            _ => Some((fields, Some(var))),
        }
    }
}

/// The tags of the extension chain from `var` appended to `tags`, and
/// `None` when the chain ends in the empty tag union or `Some` of the
/// variable where it ends otherwise (`None` overall when it is longer than
/// `fuel`).
pub open spec fn model_chase_tags(
    s: SubsModel,
    var: Variable,
    tags: Seq<(TagName, Seq<Variable>)>,
    fuel: nat,
) -> Option<(Seq<(TagName, Seq<Variable>)>, Option<Variable>)>
    decreases fuel,
{
    if fuel == 0 {
        None
    } else {
        match s.get(var).content {
            ContentModel::Structure(FlatModel::EmptyTagUnion) => Some((tags, None)),
            ContentModel::Structure(FlatModel::TagUnion(sub, ext)) => model_chase_tags(
                s,
                ext,
                tags + sub,
                (fuel - 1) as nat,
            ),
            ContentModel::Structure(FlatModel::RecursiveTagUnion(_, sub, ext)) => model_chase_tags(
                s,
                ext,
                tags + sub,
                (fuel - 1) as nat,
            ),
            ContentModel::Alias(_, _, real_var) => model_chase_tags(s, real_var, tags, (fuel - 1) as nat),
            _ => Some((tags, Some(var))),
        }
    }
}

/// Gathers the fields of a record along the chain of its extensions.
#[verifier::loop_isolation(false)]
pub fn gather_fields(
    subs: &Subs,
    fields: Vec<(Lowercase, Variable)>,
    var: Variable,
    Ghost(fuel): Ghost<nat>,
) -> (r: RecordStructure)
    requires
        subs@.wf(),
        var < subs@.len(),
        fields_below(fields.deep_view(), subs@.len()),
        model_gather_fields(subs@, fields.deep_view(), var, fuel) is Some,
    ensures
        (r.fields.deep_view(), r.ext) == model_gather_fields(subs@, fields.deep_view(), var, fuel)->Some_0,
        fields_below(r.fields.deep_view(), subs@.len()),
        r.ext < subs@.len(),
{
    let ghost target = model_gather_fields(subs@, fields.deep_view(), var, fuel);
    let mut fields = fields;
    let mut var = var;
    let ghost mut f = fuel;
    loop
        invariant
            subs@.wf(),
            var < subs@.len(),
            fields_below(fields.deep_view(), subs@.len()),
            model_gather_fields(subs@, fields.deep_view(), var, f) == target,
            target is Some,
        decreases f,
    {
        proof {
            lemma_get_below(subs@, var);
        }
        match subs.content(var) {
            Content::Structure(FlatType::Record(sub, ext)) => {
                let sub_copy = copy_fields(sub);
                proof {
                    lemma_union_all(fields.deep_view(), sub_copy.deep_view(), var_below(subs@.len()));
                }
                fields = union(fields, sub_copy);
                var = *ext;
                proof {
                    f = (f - 1) as nat;
                }
            },
            Content::Alias(_, _, real_var) => {
                var = *real_var;
                proof {
                    f = (f - 1) as nat;
                }
            },
            _ => {
                assert(model_gather_fields(subs@, fields.deep_view(), var, f) == Some((fields.deep_view(), var)));
                return RecordStructure { fields, ext: var };
            },
        }
    }
}

/// Adds the fields of the extension chain from `var` to `fields`; returns
/// `Ok` when the chain ends in the empty record and `Err` of the variable
/// where it ends otherwise.
#[verifier::loop_isolation(false)]
pub fn chase_ext_record(
    subs: &Subs,
    var: Variable,
    fields: Vec<(Lowercase, Variable)>,
    Ghost(fuel): Ghost<nat>,
) -> (r: (Vec<(Lowercase, Variable)>, Result<(), Variable>))
    requires
        subs@.wf(),
        var < subs@.len(),
        fields_below(fields.deep_view(), subs@.len()),
        model_chase_record(subs@, var, fields.deep_view(), fuel) is Some,
    ensures
        (r.0.deep_view(), match r.1 {
            Ok(_) => None,
            Err(v) => Some(v),
        }) == model_chase_record(subs@, var, fields.deep_view(), fuel)->Some_0,
        fields_below(r.0.deep_view(), subs@.len()),
        r.1 matches Err(v) ==> v < subs@.len(),
{
    let ghost target = model_chase_record(subs@, var, fields.deep_view(), fuel);
    let mut fields = fields;
    let mut var = var;
    let ghost mut f = fuel;
    loop
        invariant
            subs@.wf(),
            var < subs@.len(),
            fields_below(fields.deep_view(), subs@.len()),
            model_chase_record(subs@, var, fields.deep_view(), f) == target,
            target is Some,
        decreases f,
    {
        proof {
            lemma_get_below(subs@, var);
        }
        match subs.content(var) {
            Content::Structure(FlatType::Record(sub, ext)) => {
                let sub_copy = copy_fields(sub);
                proof {
                    lemma_union_all(fields.deep_view(), sub_copy.deep_view(), var_below(subs@.len()));
                }
                fields = union(fields, sub_copy);
                var = *ext;
                proof {
                    f = (f - 1) as nat;
                }
            },
            Content::Structure(FlatType::EmptyRecord) => {
                return (fields, Ok(()));
            },
            Content::Alias(_, _, real_var) => {
                var = *real_var;
                proof {
                    f = (f - 1) as nat;
                }
            },
            _ => {
                return (fields, Err(var));
            },
        }
    }
}

/// Appends copies of `more` to `tags`.
fn append_tags(tags: &mut Vec<(TagName, Vec<Variable>)>, more: &Vec<(TagName, Vec<Variable>)>)
    ensures
        final(tags).deep_view() == old(tags).deep_view() + more.deep_view(),
{
    let ghost start = tags.deep_view();
    let mut i: usize = 0;
    while i < more.len()
        invariant
            i <= more.len(),
            tags.deep_view() == start + more.deep_view().take(i as int),
        decreases more.len() - i,
    {
        let ghost before = tags.deep_view();
        let payload = copy_vars(&more[i].1);
        assert(payload.deep_view() =~= more@[i as int].1.deep_view());
        tags.push((more[i].0, payload));
        assert(tags.deep_view() =~= before.push(more.deep_view()[i as int]));
        i += 1;
        assert(tags.deep_view() =~= start + more.deep_view().take(i as int));
    }
    assert(more.deep_view().take(i as int) =~= more.deep_view());
}

/// Tags of a tag union that lie in `ts` or `us` lie below a bound both lie below.
proof fn lemma_concat_tags_below(ts: Seq<(TagName, Seq<Variable>)>, us: Seq<(TagName, Seq<Variable>)>, n: nat)
    requires
        tags_below(ts, n),
        tags_below(us, n),
    ensures
        tags_below(ts + us, n),
{
    assert forall|i: int| 0 <= i < (ts + us).len() implies #[trigger] list_below(n)((ts + us)[i].1) by {
        if i < ts.len() {
            assert(list_below(n)(ts[i].1));
        } else {
            assert(list_below(n)(us[i - ts.len()].1));
        }
    }
}

/// Appends the tags of the extension chain from `var` to `tags`; returns
/// `Ok` when the chain ends in the empty tag union and `Err` of the variable
/// where it ends otherwise.
#[verifier::loop_isolation(false)]
pub fn chase_ext_tag_union(
    subs: &Subs,
    var: Variable,
    tags: &mut Vec<(TagName, Vec<Variable>)>,
    Ghost(fuel): Ghost<nat>,
) -> (r: Result<(), Variable>)
    requires
        subs@.wf(),
        var < subs@.len(),
        tags_below(old(tags).deep_view(), subs@.len()),
        model_chase_tags(subs@, var, old(tags).deep_view(), fuel) is Some,
    ensures
        (final(tags).deep_view(), match r {
            Ok(_) => None,
            Err(v) => Some(v),
        }) == model_chase_tags(subs@, var, old(tags).deep_view(), fuel)->Some_0,
        tags_below(final(tags).deep_view(), subs@.len()),
        r matches Err(v) ==> v < subs@.len(),
{
    let ghost target = model_chase_tags(subs@, var, tags.deep_view(), fuel);
    let mut var = var;
    let ghost mut f = fuel;
    loop
        invariant
            subs@.wf(),
            var < subs@.len(),
            tags_below(tags.deep_view(), subs@.len()),
            model_chase_tags(subs@, var, tags.deep_view(), f) == target,
            target is Some,
        decreases f,
    {
        proof {
            lemma_get_below(subs@, var);
        }
        match subs.content(var) {
            Content::Structure(FlatType::EmptyTagUnion) => {
                return Ok(());
            },
            Content::Structure(FlatType::TagUnion(sub, ext)) => {
                proof {
                    lemma_concat_tags_below(tags.deep_view(), sub.deep_view(), subs@.len());
                }
                append_tags(tags, sub);
                var = *ext;
                proof {
                    f = (f - 1) as nat;
                }
            },
            Content::Structure(FlatType::RecursiveTagUnion(_, sub, ext)) => {
                proof {
                    lemma_concat_tags_below(tags.deep_view(), sub.deep_view(), subs@.len());
                }
                append_tags(tags, sub);
                var = *ext;
                proof {
                    f = (f - 1) as nat;
                }
            },
            Content::Alias(_, _, real_var) => {
                var = *real_var;
                proof {
                    f = (f - 1) as nat;
                }
            },
            _ => {
                return Err(var);
            },
        }
    }
}

} // verus!
