//! The abstract syntax of modules, declarations, fields and type
//! expressions, together with the ghost models that the contracts speak of.
//!
//! Every executable type has a view: identifiers become `Seq<char>`,
//! vectors become `Seq`, and annotation tables become `Map` from scoped
//! name to JSON value.  The type-reference representation is a type
//! parameter, so the same shapes serve before resolution (references are
//! bare `ScopedName`s) and after it (references are classified `TypeRef`s).

use vstd::prelude::*;

use crate::primitives::PrimitiveType;

verus! {

/// A non-empty identifier.
pub type Ident = String;

/// A dotted module name; empty means "unqualified".
pub type ModuleName = String;

/// A `(module, name)` pair; an empty module name marks an unresolved,
/// unqualified reference.
#[derive(Debug, PartialEq, Eq)]
pub struct ScopedName {
    pub module_name: ModuleName,
    pub name: Ident,
}

/// Model of a scoped name: both components as character sequences.
#[verifier::ext_equal]
pub ghost struct ScopedNameV {
    pub module_name: Seq<char>,
    pub name: Seq<char>,
}

impl View for ScopedName {
    type V = ScopedNameV;

    open spec fn view(&self) -> ScopedNameV {
        ScopedNameV { module_name: self.module_name@, name: self.name@ }
    }
}

impl Clone for ScopedName {
    /// A structural copy: the copy has the same view.
    fn clone(&self) -> (r: ScopedName)
        ensures
            r@ == self@,
    {
        ScopedName { module_name: self.module_name.clone(), name: self.name.clone() }
    }
}

impl ScopedName {
    pub fn new(module_name: String, name: String) -> (r: ScopedName)
        ensures
            r@ == (ScopedNameV { module_name: module_name@, name: name@ }),
    {
        ScopedName { module_name, name }
    }

    /// Component-wise equality of two scoped names.
    pub fn same_as(&self, other: &ScopedName) -> (r: bool)
        ensures
            r == (self@ == other@),
    {
        let r = self.module_name == other.module_name && self.name == other.name;
        r
    }
}

/// A JSON value attached as metadata.  The core never inspects these
/// values: they are carried through binding and resolution unchanged.
#[derive(Debug, PartialEq)]
pub enum JsonValue {
    Null,
    Bool(bool),
    Int(i64),
    Str(String),
    Arr(Vec<JsonValue>),
    Obj(Vec<(String, JsonValue)>),
}

/// The map denoted by an association list: later entries overwrite
/// earlier ones on key collision.
pub open spec fn pairs_map<K, V>(s: Seq<(K, V)>) -> Map<K, V>
    decreases s.len(),
{
    if s.len() == 0 {
        Map::empty()
    } else {
        pairs_map(s.drop_last()).insert(s.last().0, s.last().1)
    }
}

/// A key is in the map of an association list exactly when some entry
/// holds it.
pub proof fn lemma_pairs_map_domain<K, V>(s: Seq<(K, V)>, k: K)
    ensures
        pairs_map(s).contains_key(k) <==> exists|i: int| 0 <= i < s.len() && s[i].0 == k,
    decreases s.len(),
{
    if s.len() > 0 {
        lemma_pairs_map_domain(s.drop_last(), k);
        if exists|i: int| 0 <= i < s.len() && s[i].0 == k {
            let i = choose|i: int| 0 <= i < s.len() && s[i].0 == k;
            if i < s.len() - 1 {
                assert(s.drop_last()[i].0 == k);
            }
        }
        if exists|i: int| 0 <= i < s.drop_last().len() && s.drop_last()[i].0 == k {
            let i = choose|i: int| 0 <= i < s.drop_last().len() && s.drop_last()[i].0 == k;
            assert(s[i].0 == k);
        }
    }
}

/// The value under a key is the one of the last entry holding that key.
pub proof fn lemma_pairs_map_last<K, V>(s: Seq<(K, V)>, j: int)
    requires
        0 <= j < s.len(),
        forall|m: int| j < m < s.len() ==> s[m].0 != s[j].0,
    ensures
        pairs_map(s).contains_key(s[j].0),
        pairs_map(s)[s[j].0] == s[j].1,
    decreases s.len(),
{
    if j == s.len() - 1 {
    } else {
        assert(s.drop_last()[j] == s[j]);
        lemma_pairs_map_last(s.drop_last(), j);
    }
}

/// Every entry's key is in the map of the list.
pub proof fn lemma_pairs_map_contains_at<K, V>(s: Seq<(K, V)>, i: int)
    requires
        0 <= i < s.len(),
    ensures
        pairs_map(s).contains_key(s[i].0),
    decreases s.len(),
{
    if i < s.len() - 1 {
        assert(s.drop_last()[i] == s[i]);
        lemma_pairs_map_contains_at(s.drop_last(), i);
    }
}

/// A held key is held by a last entry, which supplies its value.
pub proof fn lemma_pairs_map_get_last<K, V>(s: Seq<(K, V)>, k: K)
    requires
        pairs_map(s).contains_key(k),
    ensures
        exists|j: int|
            0 <= j < s.len() && s[j].0 == k && (forall|m: int| j < m < s.len() ==> s[m].0 != k)
                && pairs_map(s)[k] == s[j].1,
    decreases s.len(),
{
    if s.len() > 0 {
        if s.last().0 == k {
            let j = s.len() - 1;
            assert(s[j].0 == k && (forall|m: int| j < m < s.len() ==> s[m].0 != k)
                && pairs_map(s)[k] == s[j].1);
        } else {
            lemma_pairs_map_domain(s.drop_last(), k);
            lemma_pairs_map_domain(s, k);
            if !pairs_map(s.drop_last()).contains_key(k) {
                let i = choose|i: int| 0 <= i < s.len() && s[i].0 == k;
                assert(s.drop_last()[i] == s[i]);
                assert(false);
            }
            lemma_pairs_map_get_last(s.drop_last(), k);
            let j = choose|j: int|
                0 <= j < s.drop_last().len() && s.drop_last()[j].0 == k && (forall|m: int|
                    j < m < s.drop_last().len() ==> s.drop_last()[m].0 != k) && pairs_map(
                    s.drop_last(),
                )[k] == s.drop_last()[j].1;
            assert(s[j] == s.drop_last()[j]);
            assert forall|m: int| j < m < s.len() implies s[m].0 != k by {
                if m < s.len() - 1 {
                    assert(s.drop_last()[m] == s[m]);
                }
            }
            assert(s[j].0 == k && (forall|m: int| j < m < s.len() ==> s[m].0 != k)
                && pairs_map(s)[k] == s[j].1);
        }
    }
}

/// An association list none of whose entries holds a key maps nothing
/// under that key.
pub proof fn lemma_pairs_map_absent<K, V>(s: Seq<(K, V)>, k: K)
    requires
        forall|i: int| 0 <= i < s.len() ==> s[i].0 != k,
    ensures
        !pairs_map(s).contains_key(k),
    decreases s.len(),
{
    if s.len() > 0 {
        lemma_pairs_map_absent(s.drop_last(), k);
    }
}

/// An annotation table: scoped-name keys mapped to JSON values.  Held as
/// an association list whose later entries win, which its view reflects.
#[derive(Debug, PartialEq)]
pub struct Annotations(pub Vec<(ScopedName, JsonValue)>);

/// The view pairs of an annotation list.
pub open spec fn anno_pairs(s: Seq<(ScopedName, JsonValue)>) -> Seq<(ScopedNameV, JsonValue)> {
    s.map_values(|p: (ScopedName, JsonValue)| (p.0@, p.1))
}

impl View for Annotations {
    type V = Map<ScopedNameV, JsonValue>;

    open spec fn view(&self) -> Map<ScopedNameV, JsonValue> {
        pairs_map(anno_pairs(self.0@))
    }
}

impl Annotations {
    /// The empty table.
    pub fn new() -> (r: Annotations)
        ensures
            r@ == Map::<ScopedNameV, JsonValue>::empty(),
    {
        let r = Annotations(Vec::new());
        proof {
            assert(anno_pairs(r.0@) =~= Seq::<(ScopedNameV, JsonValue)>::empty());
        }
        r
    }

    /// Binds `key` to `value`, overwriting any earlier binding of the key.
    pub fn insert(&mut self, key: ScopedName, value: JsonValue)
        ensures
            final(self)@ == old(self)@.insert(key@, value),
    {
        let ghost old_pairs = anno_pairs(self.0@);
        let ghost kv = key@;
        self.0.push((key, value));
        proof {
            let new_pairs = anno_pairs(self.0@);
            assert(new_pairs.drop_last() =~= old_pairs);
            assert(new_pairs.last() == (kv, value));
        }
    }

    /// Looks a key up; the result is the value the view maps it to.
    pub fn get(&self, key: &ScopedName) -> (r: Option<&JsonValue>)
        ensures
            match r {
                Some(v) => self@.contains_key(key@) && *v == self@[key@],
                None => !self@.contains_key(key@),
            },
    {
        let mut i: usize = self.0.len();
        while i > 0
            invariant
                i <= self.0.len(),
                forall|m: int| i <= m < self.0@.len() ==> self.0@[m].0@ != key@,
            decreases i,
        {
            i = i - 1;
            if self.0[i].0.same_as(key) {
                proof {
                    let pairs = anno_pairs(self.0@);
                    assert(pairs[i as int].0 == key@);
                    lemma_pairs_map_last(pairs, i as int);
                }
                return Some(&self.0[i].1);
            }
        }
        proof {
            lemma_pairs_map_absent(anno_pairs(self.0@), key@);
        }
        None
    }
}

/// A classified type reference, the result of resolution.
#[derive(Debug, PartialEq)]
pub enum TypeRef {
    Primitive(PrimitiveType),
    TypeParam(Ident),
    LocalName(Ident),
    ScopedName(ScopedName),
}

/// Model of a classified type reference.
#[verifier::ext_equal]
pub ghost enum TypeRefV {
    Primitive(PrimitiveType),
    TypeParam(Seq<char>),
    LocalName(Seq<char>),
    ScopedName(ScopedNameV),
}

impl View for TypeRef {
    type V = TypeRefV;

    open spec fn view(&self) -> TypeRefV {
        match self {
            TypeRef::Primitive(p) => TypeRefV::Primitive(*p),
            TypeRef::TypeParam(n) => TypeRefV::TypeParam(n@),
            TypeRef::LocalName(n) => TypeRefV::LocalName(n@),
            TypeRef::ScopedName(sn) => TypeRefV::ScopedName(sn@),
        }
    }
}

/// A type expression: one reference at the root and the parameters of a
/// generic application as ordered children.
#[derive(Debug, PartialEq)]
pub struct TypeExpr<TR> {
    pub type_ref: TR,
    pub parameters: Vec<TypeExpr<TR>>,
}

/// A type expression whose references are unresolved scoped names.
pub type TypeExpr0 = TypeExpr<ScopedName>;

/// A type expression whose references are classified.
pub type TypeExpr1 = TypeExpr<TypeRef>;

/// Model of a type expression.
#[verifier::ext_equal]
pub ghost struct TypeExprV<R> {
    pub type_ref: R,
    pub parameters: Seq<TypeExprV<R>>,
}

/// The model of an executable type expression.
pub open spec fn te_view<TR: View>(te: TypeExpr<TR>) -> TypeExprV<TR::V>
    decreases te,
{
    TypeExprV { type_ref: te.type_ref@, parameters: tes_view(te.parameters@) }
}

/// The models of a sequence of type expressions, in order.
pub open spec fn tes_view<TR: View>(tes: Seq<TypeExpr<TR>>) -> Seq<TypeExprV<TR::V>>
    decreases tes,
{
    if tes.len() == 0 {
        Seq::empty()
    } else {
        seq![te_view(tes[0])] + tes_view(tes.drop_first())
    }
}

/// `tes_view` maps the sequence element by element.
pub proof fn lemma_tes_view_index<TR: View>(tes: Seq<TypeExpr<TR>>)
    ensures
        tes_view(tes).len() == tes.len(),
        forall|i: int| 0 <= i < tes.len() ==> tes_view(tes)[i] == te_view(tes[i]),
    decreases tes.len(),
{
    if tes.len() > 0 {
        lemma_tes_view_index(tes.drop_first());
        assert forall|i: int| 0 <= i < tes.len() implies tes_view(tes)[i] == te_view(tes[i]) by {
            if i > 0 {
                assert(tes.drop_first()[i - 1] == tes[i]);
            }
        }
    }
}

impl<TR: View> View for TypeExpr<TR> {
    type V = TypeExprV<TR::V>;

    open spec fn view(&self) -> TypeExprV<TR::V> {
        te_view(*self)
    }
}

/// A field of a struct or union.
#[derive(Debug, PartialEq)]
pub struct Field<TR> {
    pub name: Ident,
    pub serialized_name: Option<String>,
    pub type_expr: TypeExpr<TR>,
    pub default: Option<JsonValue>,
    pub annotations: Annotations,
}

/// Model of a field.
#[verifier::ext_equal]
pub ghost struct FieldV<R> {
    pub name: Seq<char>,
    pub serialized_name: Option<Seq<char>>,
    pub type_expr: TypeExprV<R>,
    pub default: Option<JsonValue>,
    pub annotations: Map<ScopedNameV, JsonValue>,
}

impl<TR: View> View for Field<TR> {
    type V = FieldV<TR::V>;

    open spec fn view(&self) -> FieldV<TR::V> {
        FieldV {
            name: self.name@,
            serialized_name: match self.serialized_name {
                Some(s) => Some(s@),
                None => None,
            },
            type_expr: self.type_expr@,
            default: self.default,
            annotations: self.annotations@,
        }
    }
}

/// The models of a vector of fields.
pub open spec fn fields_view<TR: View>(fs: Seq<Field<TR>>) -> Seq<FieldV<TR::V>> {
    Seq::new(fs.len(), |i: int| fs[i]@)
}

/// The models of a vector of identifiers.
pub open spec fn idents_view(s: Seq<Ident>) -> Seq<Seq<char>> {
    Seq::new(s.len(), |i: int| s[i]@)
}

/// A struct declaration body.
#[derive(Debug, PartialEq)]
pub struct StructDef<TR> {
    pub type_params: Vec<Ident>,
    pub fields: Vec<Field<TR>>,
}

/// A union declaration body; same shape as a struct.
#[derive(Debug, PartialEq)]
pub struct UnionDef<TR> {
    pub type_params: Vec<Ident>,
    pub fields: Vec<Field<TR>>,
}

/// A type-alias declaration body.
#[derive(Debug, PartialEq)]
pub struct TypeDef<TR> {
    pub type_params: Vec<Ident>,
    pub type_expr: TypeExpr<TR>,
}

/// A newtype declaration body.
#[derive(Debug, PartialEq)]
pub struct NewTypeDef<TR> {
    pub type_params: Vec<Ident>,
    pub type_expr: TypeExpr<TR>,
    pub default: Option<JsonValue>,
}

/// The body of a declaration.
#[derive(Debug, PartialEq)]
pub enum DeclType<TR> {
    Struct(StructDef<TR>),
    Union(UnionDef<TR>),
    Type(TypeDef<TR>),
    Newtype(NewTypeDef<TR>),
}

/// Model of a declaration body.
#[verifier::ext_equal]
pub ghost enum DeclTypeV<R> {
    Struct { type_params: Seq<Seq<char>>, fields: Seq<FieldV<R>> },
    Union { type_params: Seq<Seq<char>>, fields: Seq<FieldV<R>> },
    Type { type_params: Seq<Seq<char>>, type_expr: TypeExprV<R> },
    Newtype { type_params: Seq<Seq<char>>, type_expr: TypeExprV<R>, default: Option<JsonValue> },
}

impl<TR: View> View for DeclType<TR> {
    type V = DeclTypeV<TR::V>;

    open spec fn view(&self) -> DeclTypeV<TR::V> {
        match self {
            DeclType::Struct(s) => DeclTypeV::Struct {
                type_params: idents_view(s.type_params@),
                fields: fields_view(s.fields@),
            },
            DeclType::Union(u) => DeclTypeV::Union {
                type_params: idents_view(u.type_params@),
                fields: fields_view(u.fields@),
            },
            DeclType::Type(t) => DeclTypeV::Type {
                type_params: idents_view(t.type_params@),
                type_expr: t.type_expr@,
            },
            DeclType::Newtype(n) => DeclTypeV::Newtype {
                type_params: idents_view(n.type_params@),
                type_expr: n.type_expr@,
                default: n.default,
            },
        }
    }
}

/// A declaration: name, optional version, body and annotations.
#[derive(Debug, PartialEq)]
pub struct Decl<TR> {
    pub name: Ident,
    pub version: Option<u64>,
    pub dtype: DeclType<TR>,
    pub annotations: Annotations,
}

/// A resolved declaration.
pub type Decl1 = Decl<TypeRef>;

/// Model of a declaration.
#[verifier::ext_equal]
pub ghost struct DeclV<R> {
    pub name: Seq<char>,
    pub version: Option<u64>,
    pub dtype: DeclTypeV<R>,
    pub annotations: Map<ScopedNameV, JsonValue>,
}

impl<TR: View> View for Decl<TR> {
    type V = DeclV<TR::V>;

    open spec fn view(&self) -> DeclV<TR::V> {
        DeclV {
            name: self.name@,
            version: self.version,
            dtype: self.dtype@,
            annotations: self.annotations@,
        }
    }
}

/// The models of a vector of declarations.
pub open spec fn decls_view<TR: View>(ds: Seq<Decl<TR>>) -> Seq<DeclV<TR::V>> {
    Seq::new(ds.len(), |i: int| ds[i]@)
}

/// An import clause: a whole module, or one declaration by scoped name.
#[derive(Debug, PartialEq)]
pub enum Import {
    ModuleName(ModuleName),
    ScopedName(ScopedName),
}

/// Model of an import clause.
#[verifier::ext_equal]
pub ghost enum ImportV {
    ModuleName(Seq<char>),
    ScopedName(ScopedNameV),
}

impl View for Import {
    type V = ImportV;

    open spec fn view(&self) -> ImportV {
        match self {
            Import::ModuleName(m) => ImportV::ModuleName(m@),
            Import::ScopedName(sn) => ImportV::ScopedName(sn@),
        }
    }
}

/// A module: name, imports in source order, declarations, and
/// module-level annotations.
#[derive(Debug, PartialEq)]
pub struct Module<TR> {
    pub name: ModuleName,
    pub imports: Vec<Import>,
    pub decls: Vec<Decl<TR>>,
    pub annotations: Annotations,
}

/// A module before resolution: references are bare scoped names.
pub type Module0 = Module<ScopedName>;

/// A module after resolution: references are classified.
pub type Module1 = Module<TypeRef>;

/// Model of a module.
#[verifier::ext_equal]
pub ghost struct ModuleV<R> {
    pub name: Seq<char>,
    pub imports: Seq<ImportV>,
    pub decls: Seq<DeclV<R>>,
    pub annotations: Map<ScopedNameV, JsonValue>,
}

impl<TR: View> View for Module<TR> {
    type V = ModuleV<TR::V>;

    open spec fn view(&self) -> ModuleV<TR::V> {
        ModuleV {
            name: self.name@,
            imports: Seq::new(self.imports@.len(), |i: int| self.imports@[i]@),
            decls: decls_view(self.decls@),
            annotations: self.annotations@,
        }
    }
}

/// A free-standing annotation's target: the module itself, a declaration
/// by name, or a field by declaration and field name.
#[derive(Debug, PartialEq)]
pub enum ExplicitAnnotationRef {
    Module,
    Decl(Ident),
    Field((Ident, Ident)),
}

/// Model of an explicit-annotation target.
#[verifier::ext_equal]
pub ghost enum ExplicitAnnotationRefV {
    Module,
    Decl(Seq<char>),
    Field(Seq<char>, Seq<char>),
}

impl View for ExplicitAnnotationRef {
    type V = ExplicitAnnotationRefV;

    open spec fn view(&self) -> ExplicitAnnotationRefV {
        match self {
            ExplicitAnnotationRef::Module => ExplicitAnnotationRefV::Module,
            ExplicitAnnotationRef::Decl(d) => ExplicitAnnotationRefV::Decl(d@),
            ExplicitAnnotationRef::Field((d, f)) => ExplicitAnnotationRefV::Field(d@, f@),
        }
    }
}

/// A free-standing annotation: target, key, and JSON value.
#[derive(Debug, PartialEq)]
pub struct ExplicitAnnotation {
    pub refr: ExplicitAnnotationRef,
    pub scoped_name: ScopedName,
    pub value: JsonValue,
}

/// Model of an explicit annotation.
#[verifier::ext_equal]
pub ghost struct ExplicitAnnotationV {
    pub refr: ExplicitAnnotationRefV,
    pub scoped_name: ScopedNameV,
    pub value: JsonValue,
}

impl View for ExplicitAnnotation {
    type V = ExplicitAnnotationV;

    open spec fn view(&self) -> ExplicitAnnotationV {
        ExplicitAnnotationV { refr: self.refr@, scoped_name: self.scoped_name@, value: self.value }
    }
}

/// The models of a vector of explicit annotations.
pub open spec fn eas_view(s: Seq<ExplicitAnnotation>) -> Seq<ExplicitAnnotationV> {
    Seq::new(s.len(), |i: int| s[i]@)
}

/// What the parser hands over: a module plus the free-standing
/// annotations still to be attached.
pub type RawModule = (Module0, Vec<ExplicitAnnotation>);

/// Declaration names are pairwise distinct.
pub open spec fn decl_names_unique<R>(ds: Seq<DeclV<R>>) -> bool {
    forall|i: int, j: int| 0 <= i < j < ds.len() ==> ds[i].name != ds[j].name
}

/// Some declaration in the sequence has the given name.
pub open spec fn has_decl_named<R>(ds: Seq<DeclV<R>>, n: Seq<char>) -> bool {
    exists|i: int| 0 <= i < ds.len() && ds[i].name == n
}

/// The index of the declaration with the given name.
pub open spec fn decl_index_of<R>(ds: Seq<DeclV<R>>, n: Seq<char>) -> int {
    choose|i: int| 0 <= i < ds.len() && ds[i].name == n
}

/// Field names are pairwise distinct.
pub open spec fn field_names_unique<R>(fs: Seq<FieldV<R>>) -> bool {
    forall|i: int, j: int| 0 <= i < j < fs.len() ==> fs[i].name != fs[j].name
}

/// Some field in the sequence has the given name.
pub open spec fn has_field_named<R>(fs: Seq<FieldV<R>>, n: Seq<char>) -> bool {
    exists|i: int| 0 <= i < fs.len() && fs[i].name == n
}

/// The index of the field with the given name.
pub open spec fn field_index_of<R>(fs: Seq<FieldV<R>>, n: Seq<char>) -> int {
    choose|i: int| 0 <= i < fs.len() && fs[i].name == n
}

/// The post-parse guarantees this core relies on: declaration names are
/// unique within the module, and field names are unique within each
/// struct or union body.
pub open spec fn module_wf<R>(m: ModuleV<R>) -> bool {
    &&& decl_names_unique(m.decls)
    &&& forall|i: int| 0 <= i < m.decls.len() ==> decl_fields_unique(#[trigger] m.decls[i].dtype)
}

/// Field names unique within one declaration body.
pub open spec fn decl_fields_unique<R>(dt: DeclTypeV<R>) -> bool {
    match dt {
        DeclTypeV::Struct { fields, .. } => field_names_unique(fields),
        DeclTypeV::Union { fields, .. } => field_names_unique(fields),
        _ => true,
    }
}

/// Finds the first declaration with the given name.
pub fn find_decl_index<TR: View>(decls: &Vec<Decl<TR>>, name: &String) -> (r: Option<usize>)
    ensures
        match r {
            Some(i) => i < decls@.len() && decls@[i as int]@.name == name@
                && (decl_names_unique(decls_view(decls@))
                    ==> i as int == decl_index_of(decls_view(decls@), name@)),
            None => !has_decl_named(decls_view(decls@), name@),
        },
{
    let ghost dv = decls_view(decls@);
    let mut i: usize = 0;
    while i < decls.len()
        invariant
            i <= decls@.len(),
            dv == decls_view(decls@),
            forall|m: int| 0 <= m < i ==> dv[m].name != name@,
        decreases decls@.len() - i,
    {
        if decls[i].name == *name {
            proof {
                assert(dv[i as int].name == name@);
                if decl_names_unique(dv) {
                    let j = decl_index_of(dv, name@);
                    assert(0 <= j < dv.len() && dv[j].name == name@);
                }
            }
            return Some(i);
        }
        i = i + 1;
    }
    None
}

/// Finds the first field with the given name.
pub fn find_field_index<TR: View>(fields: &Vec<Field<TR>>, name: &String) -> (r: Option<usize>)
    ensures
        match r {
            Some(i) => i < fields@.len() && fields@[i as int]@.name == name@
                && (field_names_unique(fields_view(fields@))
                    ==> i as int == field_index_of(fields_view(fields@), name@)),
            None => !has_field_named(fields_view(fields@), name@),
        },
{
    let ghost fv = fields_view(fields@);
    let mut i: usize = 0;
    while i < fields.len()
        invariant
            i <= fields@.len(),
            fv == fields_view(fields@),
            forall|m: int| 0 <= m < i ==> fv[m].name != name@,
        decreases fields@.len() - i,
    {
        if fields[i].name == *name {
            proof {
                assert(fv[i as int].name == name@);
                if field_names_unique(fv) {
                    let j = field_index_of(fv, name@);
                    assert(0 <= j < fv.len() && fv[j].name == name@);
                }
            }
            return Some(i);
        }
        i = i + 1;
    }
    None
}

} // verus!
