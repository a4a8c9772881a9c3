//! The contents of type variables, their mathematical models, and copies of
//! them whose models are proved equal to what they copy.
use vstd::prelude::*;
use crate::maps::all_values;

verus! {

/// A type variable: an index into the store of a `Subs`.
pub type Variable = usize;

/// An interned lowercase identifier (a record field or a type-variable name).
pub type Lowercase = u64;

/// An interned tag name.
pub type TagName = u64;

/// An interned symbol (a type constructor or an alias).
pub type Symbol = u64;

/// The mark a descriptor carries when no traversal has marked it.
pub const MARK_NONE: i32 = 2;

/// The mark of a class that a traversal is inside of: meeting it again
/// means the type is infinite.
pub const MARK_OCCURS: i32 = 1;

/// The rank of a variable that belongs to no let-level.
pub const RANK_NONE: u32 = 0;

/// The variable that holds the closed empty record.
pub const EMPTY_RECORD: Variable = 0;

/// The variable that holds the closed empty tag union.
pub const EMPTY_TAG_UNION: Variable = 1;

/// A problem found in a type while it is reported.
#[derive(Clone, Copy, Debug, PartialEq, Eq, Structural)]
pub enum Problem {
    CanonicalizationProblem,
    CircularType(Symbol),
    CyclicAlias(Symbol),
    UnrecognizedIdent(Lowercase),
    Shadowed(Lowercase),
    InvalidModule,
}

/// Why two types could not be unified.
#[derive(Clone, Copy, Debug, PartialEq, Eq, Structural)]
pub enum Mismatch {
    TypeMismatch,
}

/// The uniqueness attribute of a type: shared, or a container variable with
/// the member variables it depends on.
#[derive(Debug, PartialEq, Eq)]
pub enum Bool {
    Shared,
    Container(Variable, Vec<Variable>),
}

/// A type constructor applied to variables.
#[derive(Debug, PartialEq, Eq)]
pub enum FlatType {
    Apply(Symbol, Vec<Variable>),
    Func(Vec<Variable>, Variable),
    Record(Vec<(Lowercase, Variable)>, Variable),
    TagUnion(Vec<(TagName, Vec<Variable>)>, Variable),
    RecursiveTagUnion(Variable, Vec<(TagName, Vec<Variable>)>, Variable),
    Boolean(Bool),
    Erroneous(Problem),
    EmptyRecord,
    EmptyTagUnion,
}

/// What a type variable stands for.
#[derive(Debug, PartialEq, Eq)]
pub enum Content {
    FlexVar(Option<Lowercase>),
    RigidVar(Lowercase),
    Structure(FlatType),
    Alias(Symbol, Vec<(Lowercase, Variable)>, Variable),
    Error,
}

/// The descriptor of an equivalence class of variables.
#[derive(Debug, PartialEq, Eq)]
pub struct Descriptor {
    pub content: Content,
    pub rank: u32,
    pub mark: i32,
    pub copy: Option<Variable>,
}

/// Model of `Bool`.
pub enum BoolModel {
    Shared,
    Container(Variable, Seq<Variable>),
}

/// Model of `FlatType`: vectors become sequences.
pub enum FlatModel {
    Apply(Symbol, Seq<Variable>),
    Func(Seq<Variable>, Variable),
    Record(Seq<(Lowercase, Variable)>, Variable),
    TagUnion(Seq<(TagName, Seq<Variable>)>, Variable),
    RecursiveTagUnion(Variable, Seq<(TagName, Seq<Variable>)>, Variable),
    Boolean(BoolModel),
    Erroneous(Problem),
    EmptyRecord,
    EmptyTagUnion,
}

/// Model of `Content`.
pub enum ContentModel {
    FlexVar(Option<Lowercase>),
    RigidVar(Lowercase),
    Structure(FlatModel),
    Alias(Symbol, Seq<(Lowercase, Variable)>, Variable),
    Error,
}

/// Model of `Descriptor`.
pub struct DescModel {
    pub content: ContentModel,
    pub rank: u32,
    pub mark: i32,
    pub copy: Option<Variable>,
}

impl View for Bool {
    type V = BoolModel;

    open spec fn view(&self) -> BoolModel {
        match self {
            Bool::Shared => BoolModel::Shared,
            Bool::Container(c, ms) => BoolModel::Container(*c, ms@),
        }
    }
}

impl View for FlatType {
    type V = FlatModel;

    open spec fn view(&self) -> FlatModel {
        match self {
            FlatType::Apply(s, args) => FlatModel::Apply(*s, args@),
            FlatType::Func(args, ret) => FlatModel::Func(args@, *ret),
            FlatType::Record(fields, ext) => FlatModel::Record(fields.deep_view(), *ext),
            FlatType::TagUnion(tags, ext) => FlatModel::TagUnion(tags.deep_view(), *ext),
            FlatType::RecursiveTagUnion(r, tags, ext) => FlatModel::RecursiveTagUnion(
                *r,
                tags.deep_view(),
                *ext,
            ),
            FlatType::Boolean(b) => FlatModel::Boolean(b@),
            FlatType::Erroneous(p) => FlatModel::Erroneous(*p),
            FlatType::EmptyRecord => FlatModel::EmptyRecord,
            FlatType::EmptyTagUnion => FlatModel::EmptyTagUnion,
        }
    }
}

impl View for Content {
    type V = ContentModel;

    open spec fn view(&self) -> ContentModel {
        match self {
            Content::FlexVar(n) => ContentModel::FlexVar(*n),
            Content::RigidVar(n) => ContentModel::RigidVar(*n),
            Content::Structure(ft) => ContentModel::Structure(ft@),
            Content::Alias(s, args, real_var) => ContentModel::Alias(*s, args.deep_view(), *real_var),
            Content::Error => ContentModel::Error,
        }
    }
}

impl View for Descriptor {
    type V = DescModel;

    open spec fn view(&self) -> DescModel {
        DescModel { content: self.content@, rank: self.rank, mark: self.mark, copy: self.copy }
    }
}

/// Every variable of `vs` lies below `n`.
pub open spec fn vars_below(vs: Seq<Variable>, n: nat) -> bool {
    forall|i: int| 0 <= i < vs.len() ==> #[trigger] vs[i] < n
}

/// The predicate "lies below `n`" on variables.
pub open spec fn var_below(n: nat) -> spec_fn(Variable) -> bool {
    |v: Variable| v < n
}

/// The predicate "every variable lies below `n`" on lists of variables.
pub open spec fn list_below(n: nat) -> spec_fn(Seq<Variable>) -> bool {
    |vs: Seq<Variable>| vars_below(vs, n)
}

/// Every variable of the labelled variables `fs` lies below `n`.
pub open spec fn fields_below(fs: Seq<(u64, Variable)>, n: nat) -> bool {
    all_values(fs, var_below(n))
}

/// Every variable of the tag payloads `ts` lies below `n`.
pub open spec fn tags_below(ts: Seq<(u64, Seq<Variable>)>, n: nat) -> bool {
    all_values(ts, list_below(n))
}

impl BoolModel {
    /// Every variable this attribute mentions lies below `n`.
    pub open spec fn below(self, n: nat) -> bool {
        match self {
            BoolModel::Shared => true,
            BoolModel::Container(c, ms) => c < n && vars_below(ms, n),
        }
    }
}

impl FlatModel {
    /// Every variable this structure mentions lies below `n`.
    pub open spec fn below(self, n: nat) -> bool {
        match self {
            FlatModel::Apply(_, args) => vars_below(args, n),
            FlatModel::Func(args, ret) => vars_below(args, n) && ret < n,
            FlatModel::Record(fields, ext) => fields_below(fields, n) && ext < n,
            FlatModel::TagUnion(tags, ext) => tags_below(tags, n) && ext < n,
            FlatModel::RecursiveTagUnion(r, tags, ext) => r < n && tags_below(tags, n) && ext < n,
            FlatModel::Boolean(b) => b.below(n),
            _ => true,
        }
    }
}

impl ContentModel {
    /// Every variable this content mentions lies below `n`.
    pub open spec fn below(self, n: nat) -> bool {
        match self {
            ContentModel::Structure(ft) => ft.below(n),
            ContentModel::Alias(_, args, real_var) => fields_below(args, n) && real_var < n,
            _ => true,
        }
    }
}

/// Returns a copy of a list of variables.
pub fn copy_vars(vs: &Vec<Variable>) -> (r: Vec<Variable>)
    ensures
        r@ == vs@,
{
    let mut r: Vec<Variable> = Vec::new();
    let mut i: usize = 0;
    while i < vs.len()
        invariant
            i <= vs.len(),
            r@ == vs@.take(i as int),
        decreases vs.len() - i,
    {
        r.push(vs[i]);
        i += 1;
        assert(r@ =~= vs@.take(i as int));
    }
    assert(r@ =~= vs@);
    r
}

/// Returns a copy of a list of labelled variables.
pub fn copy_fields(fs: &Vec<(u64, Variable)>) -> (r: Vec<(u64, Variable)>)
    ensures
        r@ == fs@,
        r.deep_view() == fs.deep_view(),
{
    let mut r: Vec<(u64, Variable)> = Vec::new();
    let mut i: usize = 0;
    while i < fs.len()
        invariant
            i <= fs.len(),
            r@ == fs@.take(i as int),
        decreases fs.len() - i,
    {
        r.push(fs[i]);
        i += 1;
        assert(r@ =~= fs@.take(i as int));
    }
    assert(r@ =~= fs@);
    assert(r.deep_view() =~= fs.deep_view());
    r
}

/// Returns a copy of a list of tags with their payloads.
pub fn copy_tags(ts: &Vec<(TagName, Vec<Variable>)>) -> (r: Vec<(TagName, Vec<Variable>)>)
    ensures
        r.deep_view() == ts.deep_view(),
{
    let mut r: Vec<(TagName, Vec<Variable>)> = Vec::new();
    let mut i: usize = 0;
    while i < ts.len()
        invariant
            i <= ts.len(),
            r.deep_view() == ts.deep_view().take(i as int),
        decreases ts.len() - i,
    {
        let ghost before = r.deep_view();
        let payload = copy_vars(&ts[i].1);
        assert(payload.deep_view() =~= ts@[i as int].1.deep_view());
        r.push((ts[i].0, payload));
        assert(r.deep_view() =~= before.push(ts.deep_view()[i as int]));
        i += 1;
        assert(r.deep_view() =~= ts.deep_view().take(i as int));
    }
    assert(r.deep_view() =~= ts.deep_view());
    r
}

impl Bool {
    /// Returns a copy of this attribute.
    pub fn duplicate(&self) -> (r: Bool)
        ensures
            r@ == self@,
    {
        match self {
            Bool::Shared => Bool::Shared,
            Bool::Container(c, ms) => Bool::Container(*c, copy_vars(ms)),
        }
    }
}

impl FlatType {
    /// Returns a copy of this structure.
    pub fn duplicate(&self) -> (r: FlatType)
        ensures
            r@ == self@,
    {
        match self {
            FlatType::Apply(s, args) => FlatType::Apply(*s, copy_vars(args)),
            FlatType::Func(args, ret) => FlatType::Func(copy_vars(args), *ret),
            FlatType::Record(fields, ext) => FlatType::Record(copy_fields(fields), *ext),
            FlatType::TagUnion(tags, ext) => FlatType::TagUnion(copy_tags(tags), *ext),
            FlatType::RecursiveTagUnion(rv, tags, ext) => FlatType::RecursiveTagUnion(
                *rv,
                copy_tags(tags),
                *ext,
            ),
            FlatType::Boolean(b) => FlatType::Boolean(b.duplicate()),
            FlatType::Erroneous(p) => FlatType::Erroneous(*p),
            FlatType::EmptyRecord => FlatType::EmptyRecord,
            FlatType::EmptyTagUnion => FlatType::EmptyTagUnion,
        }
    }
}

impl Content {
    /// Returns a copy of this content.
    pub fn duplicate(&self) -> (r: Content)
        ensures
            r@ == self@,
    {
        match self {
            Content::FlexVar(n) => Content::FlexVar(*n),
            Content::RigidVar(n) => Content::RigidVar(*n),
            Content::Structure(ft) => Content::Structure(ft.duplicate()),
            Content::Alias(s, args, real_var) => Content::Alias(*s, copy_fields(args), *real_var),
            Content::Error => Content::Error,
        }
    }
}

impl Descriptor {
    /// Returns a copy of this descriptor.
    pub fn duplicate(&self) -> (r: Descriptor)
        ensures
            r@ == self@,
    {
        Descriptor {
            content: self.content.duplicate(),
            rank: self.rank,
            mark: self.mark,
            copy: self.copy,
        }
    }

    /// The descriptor a bare content gets: no rank, no mark, no copy.
    pub fn from_content(content: Content) -> (r: Descriptor)
        ensures
            r@ == (DescModel { content: content@, rank: RANK_NONE, mark: MARK_NONE, copy: None }),
    {
        Descriptor { content, rank: RANK_NONE, mark: MARK_NONE, copy: None }
    }
}

/// Lying below a bound is kept under a larger bound.
pub proof fn lemma_content_below_mono(c: ContentModel, n: nat, m: nat)
    requires
        c.below(n),
        n <= m,
    ensures
        c.below(m),
{
    match c {
        ContentModel::Structure(ft) => lemma_flat_below_mono(ft, n, m),
        ContentModel::Alias(_, args, _) => lemma_fields_below_mono(args, n, m),
        _ => {},
    }
}

/// Lying below a bound is kept under a larger bound.
pub proof fn lemma_flat_below_mono(ft: FlatModel, n: nat, m: nat)
    requires
        ft.below(n),
        n <= m,
    ensures
        ft.below(m),
{
    match ft {
        FlatModel::Record(fields, _) => lemma_fields_below_mono(fields, n, m),
        FlatModel::TagUnion(tags, _) => lemma_tags_below_mono(tags, n, m),
        FlatModel::RecursiveTagUnion(_, tags, _) => lemma_tags_below_mono(tags, n, m),
        _ => {},
    }
}

/// Lying below a bound is kept under a larger bound.
pub proof fn lemma_fields_below_mono(fs: Seq<(u64, Variable)>, n: nat, m: nat)
    requires
        fields_below(fs, n),
        n <= m,
    ensures
        fields_below(fs, m),
{
    assert forall|i: int| 0 <= i < fs.len() implies #[trigger] var_below(m)(fs[i].1) by {
        assert(var_below(n)(fs[i].1));
    }
}

/// Lying below a bound is kept under a larger bound.
pub proof fn lemma_tags_below_mono(ts: Seq<(u64, Seq<Variable>)>, n: nat, m: nat)
    requires
        tags_below(ts, n),
        n <= m,
    ensures
        tags_below(ts, m),
{
    assert forall|i: int| 0 <= i < ts.len() implies #[trigger] list_below(m)(ts[i].1) by {
        assert(list_below(n)(ts[i].1));
    }
}

} // verus!
