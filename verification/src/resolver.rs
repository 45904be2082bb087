//! Name resolution: classifying type references, expanding imports, and
//! resolving whole module graphs dependency-first.
//!
//! The per-reference decision procedure is `resolve_type_ref`: a type
//! parameter in scope shadows a primitive, which shadows a local
//! declaration, which shadows an import.  Qualified names must name a
//! declaration of an already-resolved module.  The driver `Resolver`
//! loads modules through an `AdlLoader`, binds their explicit
//! annotations, resolves every module they reach through imports and
//! qualified references first (detecting cycles), and only then
//! publishes the resolved module.

use vstd::prelude::*;

use crate::annotations::apply_explicit_annotations;
use crate::ast::{
    decl_fields_unique, decl_names_unique, decls_view, fields_view, find_decl_index,
    has_decl_named, idents_view, module_wf, pairs_map, lemma_pairs_map_absent,
    lemma_pairs_map_contains_at, lemma_pairs_map_domain, lemma_pairs_map_get_last,
    lemma_pairs_map_last, tes_view, lemma_tes_view_index, te_view, Annotations, Decl, DeclType,
    DeclTypeV, DeclV, Field, FieldV, Ident, Import, ImportV, JsonValue, Module, Module0, Module1,
    ModuleName, ModuleV, NewTypeDef, RawModule, ScopedName, ScopedNameV, StructDef, TypeDef,
    TypeExpr, TypeExpr0, TypeExpr1, TypeExprV, TypeRef, TypeRefV, UnionDef, Decl1,
};
use crate::primitives::{prim_from_ident, prim_from_str};

verus! {

/// The reasons resolution fails.
#[derive(Debug, PartialEq)]
pub enum ResolveError {
    /// An annotation key resolved to something that is not a declaration.
    NoDeclForAnnotation,
    /// A referenced module is not available.
    ModuleNotFound,
    /// A qualified reference named a module but not a declaration in it.
    DeclNotFound,
    /// An unqualified name matched no type parameter, primitive, local
    /// declaration or import.
    LocalNotFound(String),
    /// An import cycle was found while loading.
    CircularModules(ModuleName),
    /// The loader reported an input or parse failure.
    LoadFailed,
}

/// Model of a resolution error.
#[verifier::ext_equal]
pub ghost enum ResolveErrorV {
    NoDeclForAnnotation,
    ModuleNotFound,
    DeclNotFound,
    LocalNotFound(Seq<char>),
    CircularModules(Seq<char>),
    LoadFailed,
}

impl View for ResolveError {
    type V = ResolveErrorV;

    open spec fn view(&self) -> ResolveErrorV {
        match self {
            ResolveError::NoDeclForAnnotation => ResolveErrorV::NoDeclForAnnotation,
            ResolveError::ModuleNotFound => ResolveErrorV::ModuleNotFound,
            ResolveError::DeclNotFound => ResolveErrorV::DeclNotFound,
            ResolveError::LocalNotFound(n) => ResolveErrorV::LocalNotFound(n@),
            ResolveError::CircularModules(n) => ResolveErrorV::CircularModules(n@),
            ResolveError::LoadFailed => ResolveErrorV::LoadFailed,
        }
    }
}

/// An opaque failure reported by a loader.
#[derive(Debug, PartialEq)]
pub struct LoaderError;

/// Supplies raw modules by name.  `Ok(None)` means "no such module",
/// distinct from a load failure.  Implementations live outside this
/// crate (file systems, archives, in-memory tables in tests).
pub trait AdlLoader {
    fn load(&mut self, module_name: &ModuleName) -> Result<Option<RawModule>, LoaderError>;
}

/// The set of identifier views held by a vector of identifiers.
pub open spec fn names_set(s: Seq<Ident>) -> Set<Seq<char>> {
    Set::new(|n: Seq<char>| exists|i: int| 0 <= i < s.len() && s[i]@ == n)
}

/// The map denoted by a keyed association list, later entries winning.
pub open spec fn keyed_map<T: View>(s: Seq<(Ident, T)>) -> Map<Seq<char>, T::V> {
    pairs_map(s.map_values(|p: (Ident, T)| (p.0@, p.1@)))
}

/// The resolution environment a reference is classified against.
#[verifier::ext_equal]
pub ghost struct ResolveEnvV {
    /// The already-resolved modules, by the name they were requested under.
    pub modules: Map<Seq<char>, ModuleV<TypeRefV>>,
    /// The names the current module declares.
    pub local_names: Set<Seq<char>>,
    /// Short name to fully qualified name, from the import clauses.
    pub expanded_imports: Map<Seq<char>, ScopedNameV>,
    /// The type parameters of the declaration being resolved.
    pub type_params: Set<Seq<char>>,
}

impl ResolveEnvV {
    /// The same environment outside any generic scope.
    pub open spec fn without_type_params(self) -> ResolveEnvV {
        ResolveEnvV { type_params: Set::empty(), ..self }
    }
}

/// The decision procedure for one scoped name, in exact order: for an
/// unqualified name, a type parameter in scope, else a primitive, else a
/// local declaration, else an import; a qualified name must name a
/// declaration of a resolved module and is carried through verbatim.
pub open spec fn resolve_type_ref_spec(env: ResolveEnvV, sn: ScopedNameV) -> Result<
    TypeRefV,
    ResolveErrorV,
> {
    if sn.module_name.len() == 0 {
        if env.type_params.contains(sn.name) {
            Ok(TypeRefV::TypeParam(sn.name))
        } else if prim_from_ident(sn.name) is Some {
            Ok(TypeRefV::Primitive(prim_from_ident(sn.name)->0))
        } else if env.local_names.contains(sn.name) {
            Ok(TypeRefV::LocalName(sn.name))
        } else if env.expanded_imports.contains_key(sn.name) {
            Ok(TypeRefV::ScopedName(env.expanded_imports[sn.name]))
        } else {
            Err(ResolveErrorV::LocalNotFound(sn.name))
        }
    } else {
        if !env.modules.contains_key(sn.module_name) {
            Err(ResolveErrorV::ModuleNotFound)
        } else if !has_decl_named(env.modules[sn.module_name].decls, sn.name) {
            Err(ResolveErrorV::DeclNotFound)
        } else {
            Ok(TypeRefV::ScopedName(sn))
        }
    }
}

/// The model of an executable resolution result.
pub open spec fn res_tr_view(r: Result<TypeRef, ResolveError>) -> Result<TypeRefV, ResolveErrorV> {
    match r {
        Ok(t) => Ok(t@),
        Err(e) => Err(e@),
    }
}

/// Whether a vector of identifiers holds the given name.
fn contains_name(v: &Vec<Ident>, n: &String) -> (r: bool)
    ensures
        r == names_set(v@).contains(n@),
{
    let mut i: usize = 0;
    while i < v.len()
        invariant
            i <= v@.len(),
            forall|m: int| 0 <= m < i ==> v@[m]@ != n@,
        decreases v@.len() - i,
    {
        if v[i] == *n {
            return true;
        }
        i = i + 1;
    }
    false
}

/// Looks a short name up in the expanded-imports list; the last entry
/// holding the name wins, as the map view says.
fn imports_lookup<'a>(v: &'a Vec<(Ident, ScopedName)>, n: &String) -> (r: Option<&'a ScopedName>)
    ensures
        match r {
            Some(sn) => keyed_map(v@).contains_key(n@) && sn@ == keyed_map(v@)[n@],
            None => !keyed_map(v@).contains_key(n@),
        },
{
    let ghost pairs = v@.map_values(|p: (Ident, ScopedName)| (p.0@, p.1@));
    let mut i: usize = v.len();
    while i > 0
        invariant
            i <= v@.len(),
            pairs == v@.map_values(|p: (Ident, ScopedName)| (p.0@, p.1@)),
            forall|m: int| i <= m < v@.len() ==> v@[m].0@ != n@,
        decreases i,
    {
        i = i - 1;
        if v[i].0 == *n {
            proof {
                assert(pairs[i as int].0 == n@);
                lemma_pairs_map_last(pairs, i as int);
            }
            return Some(&v[i].1);
        }
    }
    proof {
        assert forall|m: int| 0 <= m < pairs.len() implies pairs[m].0 != n@ by {
            assert(v@[m].0@ != n@);
        }
        lemma_pairs_map_absent(pairs, n@);
    }
    None
}

/// Looks a module up among the resolved ones by requested name.
fn modules_lookup<'a>(v: &'a Vec<(ModuleName, Module1)>, n: &String) -> (r: Option<&'a Module1>)
    ensures
        match r {
            Some(m) => keyed_map(v@).contains_key(n@) && m@ == keyed_map(v@)[n@],
            None => !keyed_map(v@).contains_key(n@),
        },
{
    let ghost pairs = v@.map_values(|p: (ModuleName, Module1)| (p.0@, p.1@));
    let mut i: usize = v.len();
    while i > 0
        invariant
            i <= v@.len(),
            pairs == v@.map_values(|p: (ModuleName, Module1)| (p.0@, p.1@)),
            forall|m: int| i <= m < v@.len() ==> v@[m].0@ != n@,
        decreases i,
    {
        i = i - 1;
        if v[i].0 == *n {
            proof {
                assert(pairs[i as int].0 == n@);
                lemma_pairs_map_last(pairs, i as int);
            }
            return Some(&v[i].1);
        }
    }
    proof {
        assert forall|m: int| 0 <= m < pairs.len() implies pairs[m].0 != n@ by {
            assert(v@[m].0@ != n@);
        }
        lemma_pairs_map_absent(pairs, n@);
    }
    None
}

/// The read-only context one module is resolved in: the snapshot of
/// already-resolved modules, the current module's declaration names, its
/// expanded imports, and the type parameters in scope.
pub struct ResolveCtx<'a> {
    pub modules: &'a Vec<(ModuleName, Module1)>,
    pub local_names: &'a Vec<Ident>,
    pub expanded_imports: &'a Vec<(Ident, ScopedName)>,
    pub type_params: Vec<Ident>,
}

impl<'a> ResolveCtx<'a> {
    /// The environment this context denotes.
    pub open spec fn env(&self) -> ResolveEnvV {
        ResolveEnvV {
            modules: keyed_map(self.modules@),
            local_names: names_set(self.local_names@),
            expanded_imports: keyed_map(self.expanded_imports@),
            type_params: names_set(self.type_params@),
        }
    }

    /// The same context with a fresh set of type parameters in scope.
    pub fn with_type_params(&self, type_params: &Vec<Ident>) -> (r: ResolveCtx<'a>)
        ensures
            r.env() == (ResolveEnvV { type_params: names_set(type_params@), ..self.env() }),
    {
        let tps = type_params_set(type_params);
        let r = ResolveCtx {
            modules: self.modules,
            local_names: self.local_names,
            expanded_imports: self.expanded_imports,
            type_params: tps,
        };
        proof {
            assert(r.env() =~= (ResolveEnvV { type_params: names_set(type_params@), ..self.env() }));
        }
        r
    }

    /// The same context outside any generic scope.
    pub fn without_type_params(&self) -> (r: ResolveCtx<'a>)
        ensures
            r.env() == self.env().without_type_params(),
    {
        let r = ResolveCtx {
            modules: self.modules,
            local_names: self.local_names,
            expanded_imports: self.expanded_imports,
            type_params: Vec::new(),
        };
        proof {
            assert(names_set(r.type_params@) =~= Set::<Seq<char>>::empty());
            assert(r.env() =~= self.env().without_type_params());
        }
        r
    }

    /// The resolved module of that name, if there is one.
    pub fn find_module(&self, module_name: &ModuleName) -> (r: Option<&Module1>)
        ensures
            match r {
                Some(m) => self.env().modules.contains_key(module_name@) && m@
                    == self.env().modules[module_name@],
                None => !self.env().modules.contains_key(module_name@),
            },
    {
        modules_lookup(self.modules, module_name)
    }

    /// Classifies one scoped name, following the decision procedure
    /// exactly: the result is `resolve_type_ref_spec` of this context's
    /// environment.
    pub fn resolve_type_ref(&self, scoped_name0: &ScopedName) -> (r: Result<TypeRef, ResolveError>)
        ensures
            res_tr_view(r) == resolve_type_ref_spec(self.env(), scoped_name0@),
    {
        if scoped_name0.module_name.as_str().is_empty() {
            let name = &scoped_name0.name;
            if contains_name(&self.type_params, name) {
                return Ok(TypeRef::TypeParam(name.clone()));
            }
            match prim_from_str(name) {
                Some(ptype) => {
                    return Ok(TypeRef::Primitive(ptype));
                },
                None => {},
            }
            if contains_name(self.local_names, name) {
                return Ok(TypeRef::LocalName(name.clone()));
            }
            match imports_lookup(self.expanded_imports, name) {
                Some(scoped_name) => {
                    return Ok(TypeRef::ScopedName(scoped_name.clone()));
                },
                None => {},
            }
            Err(ResolveError::LocalNotFound(name.clone()))
        } else {
            match self.find_module(&scoped_name0.module_name) {
                None => Err(ResolveError::ModuleNotFound),
                Some(module1) => {
                    match find_decl_index(&module1.decls, &scoped_name0.name) {
                        None => Err(ResolveError::DeclNotFound),
                        Some(i) => {
                            proof {
                                assert(decls_view(module1.decls@)[i as int].name
                                    == scoped_name0.name@);
                                assert(has_decl_named(decls_view(module1.decls@), scoped_name0.name@));
                            }
                            Ok(TypeRef::ScopedName(scoped_name0.clone()))
                        },
                    }
                },
            }
        }
    }
}

/// The distinct type parameters of a declaration, as a fresh list.
pub fn type_params_set(type_params: &Vec<Ident>) -> (r: Vec<Ident>)
    ensures
        names_set(r@) == names_set(type_params@),
{
    let mut r: Vec<Ident> = Vec::new();
    let mut i: usize = 0;
    while i < type_params.len()
        invariant
            i <= type_params@.len(),
            r@.len() == i,
            forall|m: int| 0 <= m < i ==> r@[m]@ == type_params@[m]@,
        decreases type_params@.len() - i,
    {
        r.push(type_params[i].clone());
        i = i + 1;
    }
    proof {
        assert forall|n: Seq<char>|
            names_set(r@).contains(n) == names_set(type_params@).contains(n) by {
            if names_set(r@).contains(n) {
                let w = choose|w: int| 0 <= w < r@.len() && r@[w]@ == n;
                assert(type_params@[w]@ == n);
            }
            if names_set(type_params@).contains(n) {
                let w = choose|w: int| 0 <= w < type_params@.len() && type_params@[w]@ == n;
                assert(r@[w]@ == n);
            }
        }
        assert(names_set(r@) =~= names_set(type_params@));
    }
    r
}

/// The resolution of one type expression: the root reference, then the
/// children left to right, stopping at the first failure.
pub open spec fn resolve_te_spec(env: ResolveEnvV, te: TypeExprV<ScopedNameV>) -> Result<
    TypeExprV<TypeRefV>,
    ResolveErrorV,
>
    decreases te, 1int,
{
    match resolve_type_ref_spec(env, te.type_ref) {
        Ok(tr) => match resolve_te_list_spec(env, te.parameters) {
            Ok(ps) => Ok(TypeExprV { type_ref: tr, parameters: ps }),
            Err(e) => Err(e),
        },
        Err(e) => Err(e),
    }
}

/// The resolution of a list of type expressions, in order, stopping at
/// the first failure.
pub open spec fn resolve_te_list_spec(env: ResolveEnvV, tes: Seq<TypeExprV<ScopedNameV>>) -> Result<
    Seq<TypeExprV<TypeRefV>>,
    ResolveErrorV,
>
    decreases tes, 0int,
{
    if tes.len() == 0 {
        Ok(Seq::empty())
    } else {
        match resolve_te_spec(env, tes[0]) {
            Ok(h) => match resolve_te_list_spec(env, tes.drop_first()) {
                Ok(t) => Ok(seq![h] + t),
                Err(e) => Err(e),
            },
            Err(e) => Err(e),
        }
    }
}

/// List resolution splits over concatenation: the left part resolves
/// first, and only on success the right part.
pub proof fn lemma_te_list_concat(
    env: ResolveEnvV,
    a: Seq<TypeExprV<ScopedNameV>>,
    b: Seq<TypeExprV<ScopedNameV>>,
)
    ensures
        resolve_te_list_spec(env, a + b) == match resolve_te_list_spec(env, a) {
            Ok(ra) => match resolve_te_list_spec(env, b) {
                Ok(rb) => Ok::<Seq<TypeExprV<TypeRefV>>, ResolveErrorV>(ra + rb),
                Err(e) => Err(e),
            },
            Err(e) => Err(e),
        },
    decreases a.len(),
{
    if a.len() == 0 {
        assert(a + b =~= b);
        if resolve_te_list_spec(env, b) is Ok {
            let rb = resolve_te_list_spec(env, b)->Ok_0;
            assert(resolve_te_list_spec(env, a) == Ok::<Seq<TypeExprV<TypeRefV>>, ResolveErrorV>(
                Seq::empty(),
            ));
            assert(Seq::<TypeExprV<TypeRefV>>::empty() + rb =~= rb);
        }
    } else {
        assert((a + b)[0] == a[0]);
        assert((a + b).len() > 0);
        assert((a + b).drop_first() =~= a.drop_first() + b);
        lemma_te_list_concat(env, a.drop_first(), b);
        if resolve_te_spec(env, a[0]) is Ok {
            let h = resolve_te_spec(env, a[0])->Ok_0;
            if resolve_te_list_spec(env, a.drop_first()) is Ok {
                let t = resolve_te_list_spec(env, a.drop_first())->Ok_0;
                assert(resolve_te_list_spec(env, a) == Ok::<
                    Seq<TypeExprV<TypeRefV>>,
                    ResolveErrorV,
                >(seq![h] + t));
                if resolve_te_list_spec(env, b) is Ok {
                    let rb = resolve_te_list_spec(env, b)->Ok_0;
                    assert(seq![h] + (t + rb) =~= (seq![h] + t) + rb);
                }
            }
        }
    }
}

/// The model of an executable type-expression resolution result.
pub open spec fn res_te_view(r: Result<TypeExpr1, ResolveError>) -> Result<
    TypeExprV<TypeRefV>,
    ResolveErrorV,
> {
    match r {
        Ok(t) => Ok(t@),
        Err(e) => Err(e@),
    }
}

/// Resolves a type expression: the result is `resolve_te_spec` of the
/// context's environment, so every reference in it is classified and
/// the tree shape and order of parameters are kept.
pub fn resolve_type_expr(ctx: &ResolveCtx, typeexpr0: &TypeExpr0) -> (r: Result<
    TypeExpr1,
    ResolveError,
>)
    ensures
        res_te_view(r) == resolve_te_spec(ctx.env(), typeexpr0@),
    decreases *typeexpr0,
{
    let type_ref = match ctx.resolve_type_ref(&typeexpr0.type_ref) {
        Ok(t) => t,
        Err(e) => {
            return Err(e);
        },
    };
    let ghost src_tes = tes_view(typeexpr0.parameters@);
    proof {
        lemma_tes_view_index(typeexpr0.parameters@);
    }
    let mut parameters: Vec<TypeExpr1> = Vec::new();
    let mut idx: usize = 0;
    while idx < typeexpr0.parameters.len()
        invariant
            idx <= typeexpr0.parameters@.len(),
            src_tes == tes_view(typeexpr0.parameters@),
            src_tes.len() == typeexpr0.parameters@.len(),
            forall|i: int| 0 <= i < src_tes.len() ==> src_tes[i] == te_view(
                #[trigger] typeexpr0.parameters@[i],
            ),
            resolve_te_list_spec(ctx.env(), src_tes.take(idx as int)) == Ok::<
                Seq<TypeExprV<TypeRefV>>,
                ResolveErrorV,
            >(tes_view(parameters@)),
            res_tr_view(Ok::<TypeRef, ResolveError>(type_ref)) == resolve_type_ref_spec(
                ctx.env(),
                typeexpr0@.type_ref,
            ),
        decreases typeexpr0.parameters@.len() - idx,
    {
        proof {
            assert(decreases_to!(*typeexpr0 => typeexpr0.parameters));
            assert(decreases_to!(typeexpr0.parameters => typeexpr0.parameters@[idx as int]));
        }
        let p1 = match resolve_type_expr(ctx, &typeexpr0.parameters[idx]) {
            Ok(p1) => p1,
            Err(e) => {
                proof {
                    assert(src_tes =~= src_tes.take(idx as int) + src_tes.skip(idx as int));
                    lemma_te_list_concat(
                        ctx.env(),
                        src_tes.take(idx as int),
                        src_tes.skip(idx as int),
                    );
                    assert(src_tes.skip(idx as int)[0] == src_tes[idx as int]);
                    assert(resolve_te_spec(ctx.env(), src_tes.skip(idx as int)[0]) == Err::<
                        TypeExprV<TypeRefV>,
                        ResolveErrorV,
                    >(e@));
                    assert(resolve_te_list_spec(ctx.env(), src_tes) == Err::<
                        Seq<TypeExprV<TypeRefV>>,
                        ResolveErrorV,
                    >(e@));
                }
                return Err(e);
            },
        };
        let ghost old_params = parameters@;
        parameters.push(p1);
        proof {
            assert(tes_view(parameters@).len() == old_params.len() + 1) by {
                lemma_tes_view_index(parameters@);
            }
            lemma_tes_view_index(parameters@);
            lemma_tes_view_index(old_params);
            assert(tes_view(parameters@) =~= tes_view(old_params).push(te_view(p1)));
            assert(src_tes.take(idx + 1) =~= src_tes.take(idx as int) + seq![src_tes[idx as int]]);
            lemma_te_list_concat(
                ctx.env(),
                src_tes.take(idx as int),
                seq![src_tes[idx as int]],
            );
            assert(seq![src_tes[idx as int]][0] == src_tes[idx as int]);
            assert(seq![src_tes[idx as int]].drop_first()
                =~= Seq::<TypeExprV<ScopedNameV>>::empty());
            assert(resolve_te_spec(ctx.env(), src_tes[idx as int]) == Ok::<
                TypeExprV<TypeRefV>,
                ResolveErrorV,
            >(te_view(p1)));
            assert(seq![te_view(p1)] + Seq::<TypeExprV<TypeRefV>>::empty() =~= seq![
                te_view(p1),
            ]);
            assert(resolve_te_list_spec(ctx.env(), Seq::<TypeExprV<ScopedNameV>>::empty())
                == Ok::<Seq<TypeExprV<TypeRefV>>, ResolveErrorV>(Seq::empty()));
            assert(resolve_te_list_spec(ctx.env(), seq![src_tes[idx as int]]) == Ok::<
                Seq<TypeExprV<TypeRefV>>,
                ResolveErrorV,
            >(seq![te_view(p1)]));
            assert(tes_view(old_params) + seq![te_view(p1)] =~= tes_view(old_params).push(
                te_view(p1),
            ));
        }
        idx = idx + 1;
    }
    proof {
        assert(src_tes.take(src_tes.len() as int) =~= src_tes);
    }
    Ok(TypeExpr { type_ref, parameters })
}

/// The resolution of one annotation key: it must classify as a fully
/// qualified scoped name, outside any generic scope; any other
/// classification is `NoDeclForAnnotation`.
pub open spec fn resolve_anno_key_spec(env: ResolveEnvV, k: ScopedNameV) -> Result<
    ScopedNameV,
    ResolveErrorV,
> {
    match resolve_type_ref_spec(env.without_type_params(), k) {
        Ok(TypeRefV::ScopedName(sn)) => Ok(sn),
        Ok(_) => Err(ResolveErrorV::NoDeclForAnnotation),
        Err(e) => Err(e),
    }
}

/// Every key of the table resolves to a declaration.
pub open spec fn annos_resolve_ok(env: ResolveEnvV, a: Map<ScopedNameV, JsonValue>) -> bool {
    forall|k: ScopedNameV| a.contains_key(k) ==> (#[trigger] resolve_anno_key_spec(env, k)) is Ok
}

/// The resolved table holds exactly the resolved keys, each carrying a
/// value the original table held under a key resolving to it.
pub open spec fn annos_resolved_rel(
    env: ResolveEnvV,
    a0: Map<ScopedNameV, JsonValue>,
    a1: Map<ScopedNameV, JsonValue>,
) -> bool {
    &&& forall|k: ScopedNameV| a0.contains_key(k) ==> a1.contains_key(
        (#[trigger] resolve_anno_key_spec(env, k))->Ok_0,
    )
    &&& forall|k2: ScopedNameV| a1.contains_key(k2) ==> exists|k: ScopedNameV|
        a0.contains_key(k) && #[trigger] resolve_anno_key_spec(env, k) == Ok::<
            ScopedNameV,
            ResolveErrorV,
        >(k2) && a1[k2] == a0[k]
}

/// Some key of the table fails to resolve, with this error.
pub open spec fn annos_error(
    env: ResolveEnvV,
    a0: Map<ScopedNameV, JsonValue>,
    e: ResolveErrorV,
) -> bool {
    exists|k: ScopedNameV| a0.contains_key(k) && #[trigger] resolve_anno_key_spec(env, k) == Err::<
        ScopedNameV,
        ResolveErrorV,
    >(e)
}

/// Resolves every key of an annotation table, carrying the values
/// through unchanged.  `Ok` exactly when every key resolves to a
/// declaration; the error otherwise is the error of a failing key.
pub fn resolve_annotations(ctx: &ResolveCtx, annotations0: Annotations) -> (r: Result<
    Annotations,
    ResolveError,
>)
    ensures
        match r {
            Ok(a1) => annos_resolve_ok(ctx.env(), annotations0@) && annos_resolved_rel(
                ctx.env(),
                annotations0@,
                a1@,
            ),
            Err(e) => annos_error(ctx.env(), annotations0@, e@),
        },
{
    let ghost env = ctx.env();
    let ghost a0v = annotations0@;
    let ghost orig = crate::ast::anno_pairs(annotations0.0@);
    proof {
        assert(a0v == pairs_map(orig));
    }
    let ctx0 = ctx.without_type_params();
    let mut src = annotations0.0;
    let mut out: Vec<(ScopedName, JsonValue)> = Vec::new();
    let ghost mut k: int = 0;

    while src.len() > 0
        invariant
            0 <= k <= orig.len(),
            env == ctx.env(),
            a0v == annotations0@,
            a0v == pairs_map(orig),
            ctx0.env() == env.without_type_params(),
            crate::ast::anno_pairs(src@) =~= orig.skip(k),
            out@.len() == k,
            forall|i: int| 0 <= i < k ==> resolve_anno_key_spec(env, #[trigger] orig[i].0)
                is Ok,
            forall|i: int| 0 <= i < k ==> (#[trigger] crate::ast::anno_pairs(out@)[i]).0
                == resolve_anno_key_spec(env, orig[i].0)->Ok_0 && crate::ast::anno_pairs(
                out@,
            )[i].1 == orig[i].1,
        decreases src@.len(),
    {
        let ghost prev = src@;
        proof {
            assert(crate::ast::anno_pairs(prev).len() == prev.len());
            assert(orig.skip(k).len() == orig.len() - k);
            assert(k < orig.len());
        }
        let (key, value) = src.remove(0);
        proof {
            assert(crate::ast::anno_pairs(prev)[0] == (key@, value));
            assert(orig.skip(k)[0] == orig[k]);
            assert(key@ == orig[k].0 && value == orig[k].1);
            assert(crate::ast::anno_pairs(src@) =~= orig.skip(k + 1)) by {
                assert(src@ =~= prev.drop_first());
                assert forall|i: int| 0 <= i < src@.len() implies crate::ast::anno_pairs(
                    src@,
                )[i] == orig.skip(k + 1)[i] by {
                    assert(src@[i] == prev[i + 1]);
                    assert(crate::ast::anno_pairs(prev)[i + 1] == (prev[i + 1].0@, prev[i + 1].1));
                    assert(orig.skip(k)[i + 1] == orig[k + 1 + i]);
                    assert(orig.skip(k + 1)[i] == orig[k + 1 + i]);
                }
            }
        }
        let tr = match ctx0.resolve_type_ref(&key) {
            Ok(t) => t,
            Err(e) => {
                proof {
                    lemma_pairs_map_contains_at(orig, k);
                    assert(a0v.contains_key(orig[k].0));
                    assert(resolve_anno_key_spec(env, orig[k].0) == Err::<
                        ScopedNameV,
                        ResolveErrorV,
                    >(e@));
                }
                return Err(e);
            },
        };
        match tr {
            TypeRef::ScopedName(sn) => {
                let ghost old_out = out@;
                out.push((sn, value));
                proof {
                    assert(resolve_anno_key_spec(env, orig[k].0) == Ok::<
                        ScopedNameV,
                        ResolveErrorV,
                    >(sn@));
                    assert(crate::ast::anno_pairs(out@) =~= crate::ast::anno_pairs(
                        old_out,
                    ).push((sn@, value)));
                    assert forall|i: int| 0 <= i < k + 1 implies (
                    #[trigger] crate::ast::anno_pairs(out@)[i]).0 == resolve_anno_key_spec(
                        env,
                        orig[i].0,
                    )->Ok_0 && crate::ast::anno_pairs(out@)[i].1 == orig[i].1 by {
                        if i < k {
                            assert(crate::ast::anno_pairs(out@)[i] == crate::ast::anno_pairs(
                                old_out,
                            )[i]);
                        }
                    }
                }
            },
            _ => {
                proof {
                    lemma_pairs_map_contains_at(orig, k);
                    assert(a0v.contains_key(orig[k].0));
                    assert(resolve_anno_key_spec(env, orig[k].0) == Err::<
                        ScopedNameV,
                        ResolveErrorV,
                    >(ResolveErrorV::NoDeclForAnnotation));
                }
                return Err(ResolveError::NoDeclForAnnotation);
            },
        }
        proof {
            k = k + 1;
        }
    }
    let result = Annotations(out);
    proof {
        let rv = crate::ast::anno_pairs(result.0@);
        assert(k == orig.len());
        assert forall|kk: ScopedNameV| a0v.contains_key(kk) implies
            (#[trigger] resolve_anno_key_spec(env, kk)) is Ok by {
            lemma_pairs_map_domain(orig, kk);
            let i = choose|i: int| 0 <= i < orig.len() && orig[i].0 == kk;
            assert(resolve_anno_key_spec(env, orig[i].0) is Ok);
        }
        assert forall|kk: ScopedNameV| a0v.contains_key(kk) implies result@.contains_key(
            (#[trigger] resolve_anno_key_spec(env, kk))->Ok_0,
        ) by {
            lemma_pairs_map_domain(orig, kk);
            let i = choose|i: int| 0 <= i < orig.len() && orig[i].0 == kk;
            assert(rv[i].0 == resolve_anno_key_spec(env, kk)->Ok_0);
            lemma_pairs_map_domain(rv, rv[i].0);
        }
        assert forall|k2: ScopedNameV| result@.contains_key(k2) implies exists|kk: ScopedNameV|
            a0v.contains_key(kk) && #[trigger] resolve_anno_key_spec(env, kk) == Ok::<
                ScopedNameV,
                ResolveErrorV,
            >(k2) && result@[k2] == a0v[kk] by {
            lemma_pairs_map_get_last(rv, k2);
            let j = choose|j: int|
                0 <= j < rv.len() && rv[j].0 == k2 && (forall|m: int|
                    j < m < rv.len() ==> rv[m].0 != k2) && pairs_map(rv)[k2] == rv[j].1;
            let kk = orig[j].0;
            assert(rv[j].0 == resolve_anno_key_spec(env, kk)->Ok_0);
            assert forall|m: int| j < m < orig.len() implies orig[m].0 != kk by {
                if orig[m].0 == kk {
                    assert(rv[m].0 == resolve_anno_key_spec(env, kk)->Ok_0);
                }
            }
            lemma_pairs_map_last(orig, j);
            assert(a0v.contains_key(kk) && a0v[kk] == orig[j].1);
            assert(resolve_anno_key_spec(env, kk) == Ok::<ScopedNameV, ResolveErrorV>(k2));
            assert(result@[k2] == rv[j].1);
            assert(rv[j].1 == orig[j].1);
        }
    }
    Ok(result)
}

/// The name views held by a sequence of name views.
pub open spec fn tp_names(s: Seq<Seq<char>>) -> Set<Seq<char>> {
    Set::new(|n: Seq<char>| exists|i: int| 0 <= i < s.len() && s[i] == n)
}

/// `names_set` of a vector equals `tp_names` of its views.
pub proof fn lemma_names_set_idents(v: Seq<Ident>)
    ensures
        names_set(v) == tp_names(idents_view(v)),
{
    assert forall|n: Seq<char>| names_set(v).contains(n) == tp_names(idents_view(v)).contains(
        n,
    ) by {
        if names_set(v).contains(n) {
            let w = choose|w: int| 0 <= w < v.len() && v[w]@ == n;
            assert(idents_view(v)[w] == n);
        }
        if tp_names(idents_view(v)).contains(n) {
            let w = choose|w: int| 0 <= w < idents_view(v).len() && idents_view(v)[w] == n;
            assert(v[w]@ == n);
        }
    }
    assert(names_set(v) =~= tp_names(idents_view(v)));
}

/// The environment inside a declaration body: the declaration's type
/// parameters replace whatever generic scope was open.
pub open spec fn scoped_env(env: ResolveEnvV, tp: Seq<Seq<char>>) -> ResolveEnvV {
    ResolveEnvV { type_params: tp_names(tp), ..env }
}

/// A field resolves to its image: same name, serialized name and
/// default; the type expression resolved; the annotation keys resolved
/// with their values carried through.
pub open spec fn field_resolves_to(
    env: ResolveEnvV,
    f0: FieldV<ScopedNameV>,
    f1: FieldV<TypeRefV>,
) -> bool {
    &&& f1.name == f0.name
    &&& f1.serialized_name == f0.serialized_name
    &&& f1.default == f0.default
    &&& resolve_te_spec(env, f0.type_expr) == Ok::<TypeExprV<TypeRefV>, ResolveErrorV>(
        f1.type_expr,
    )
    &&& annos_resolve_ok(env, f0.annotations)
    &&& annos_resolved_rel(env, f0.annotations, f1.annotations)
}

/// Everything in the field resolves.
pub open spec fn field_ok(env: ResolveEnvV, f0: FieldV<ScopedNameV>) -> bool {
    resolve_te_spec(env, f0.type_expr) is Ok && annos_resolve_ok(env, f0.annotations)
}

/// The error a failing field reports: its type expression's error, or
/// else the error of a failing annotation key.
pub open spec fn field_error(env: ResolveEnvV, f0: FieldV<ScopedNameV>, e: ResolveErrorV) -> bool {
    match resolve_te_spec(env, f0.type_expr) {
        Err(e0) => e == e0,
        Ok(_) => annos_error(env, f0.annotations, e),
    }
}

/// Each field resolves to the one at its position.
pub open spec fn fields_resolve_to(
    env: ResolveEnvV,
    fs0: Seq<FieldV<ScopedNameV>>,
    fs1: Seq<FieldV<TypeRefV>>,
) -> bool {
    fs1.len() == fs0.len() && forall|i: int| 0 <= i < fs0.len() ==> field_resolves_to(
        env,
        #[trigger] fs0[i],
        fs1[i],
    )
}

/// Every field resolves.
pub open spec fn fields_ok(env: ResolveEnvV, fs0: Seq<FieldV<ScopedNameV>>) -> bool {
    forall|i: int| 0 <= i < fs0.len() ==> field_ok(env, #[trigger] fs0[i])
}

/// The first failing field, in declared order, supplies the error.
pub open spec fn fields_error(
    env: ResolveEnvV,
    fs0: Seq<FieldV<ScopedNameV>>,
    e: ResolveErrorV,
) -> bool {
    exists|i: int| 0 <= i < fs0.len() && (forall|j: int| 0 <= j < i ==> field_ok(
        env,
        #[trigger] fs0[j],
    )) && field_error(env, #[trigger] fs0[i], e)
}

/// A declaration body resolves to its image, under a fresh scope made
/// of its own type parameters.
pub open spec fn dtype_resolves_to(
    env: ResolveEnvV,
    dt0: DeclTypeV<ScopedNameV>,
    dt1: DeclTypeV<TypeRefV>,
) -> bool {
    match (dt0, dt1) {
        (
            DeclTypeV::Struct { type_params: tp0, fields: f0 },
            DeclTypeV::Struct { type_params: tp1, fields: f1 },
        ) => tp1 == tp0 && fields_resolve_to(scoped_env(env, tp0), f0, f1),
        (
            DeclTypeV::Union { type_params: tp0, fields: f0 },
            DeclTypeV::Union { type_params: tp1, fields: f1 },
        ) => tp1 == tp0 && fields_resolve_to(scoped_env(env, tp0), f0, f1),
        (
            DeclTypeV::Type { type_params: tp0, type_expr: t0 },
            DeclTypeV::Type { type_params: tp1, type_expr: t1 },
        ) => tp1 == tp0 && resolve_te_spec(scoped_env(env, tp0), t0) == Ok::<
            TypeExprV<TypeRefV>,
            ResolveErrorV,
        >(t1),
        (
            DeclTypeV::Newtype { type_params: tp0, type_expr: t0, default: d0 },
            DeclTypeV::Newtype { type_params: tp1, type_expr: t1, default: d1 },
        ) => tp1 == tp0 && d1 == d0 && resolve_te_spec(scoped_env(env, tp0), t0) == Ok::<
            TypeExprV<TypeRefV>,
            ResolveErrorV,
        >(t1),
        _ => false,
    }
}

/// Everything in the body resolves.
pub open spec fn dtype_ok(env: ResolveEnvV, dt0: DeclTypeV<ScopedNameV>) -> bool {
    match dt0 {
        DeclTypeV::Struct { type_params, fields } => fields_ok(scoped_env(env, type_params), fields),
        DeclTypeV::Union { type_params, fields } => fields_ok(scoped_env(env, type_params), fields),
        DeclTypeV::Type { type_params, type_expr } => resolve_te_spec(
            scoped_env(env, type_params),
            type_expr,
        ) is Ok,
        DeclTypeV::Newtype { type_params, type_expr, .. } => resolve_te_spec(
            scoped_env(env, type_params),
            type_expr,
        ) is Ok,
    }
}

/// The error a failing body reports.
pub open spec fn dtype_error(env: ResolveEnvV, dt0: DeclTypeV<ScopedNameV>, e: ResolveErrorV) -> bool {
    match dt0 {
        DeclTypeV::Struct { type_params, fields } => fields_error(
            scoped_env(env, type_params),
            fields,
            e,
        ),
        DeclTypeV::Union { type_params, fields } => fields_error(
            scoped_env(env, type_params),
            fields,
            e,
        ),
        DeclTypeV::Type { type_params, type_expr } => resolve_te_spec(
            scoped_env(env, type_params),
            type_expr,
        ) == Err::<TypeExprV<TypeRefV>, ResolveErrorV>(e),
        DeclTypeV::Newtype { type_params, type_expr, .. } => resolve_te_spec(
            scoped_env(env, type_params),
            type_expr,
        ) == Err::<TypeExprV<TypeRefV>, ResolveErrorV>(e),
    }
}

/// A declaration resolves to its image: body first, under its own type
/// parameters; its annotations outside any generic scope.
pub open spec fn decl_resolves_to(
    env: ResolveEnvV,
    d0: DeclV<ScopedNameV>,
    d1: DeclV<TypeRefV>,
) -> bool {
    &&& d1.name == d0.name
    &&& d1.version == d0.version
    &&& dtype_resolves_to(env, d0.dtype, d1.dtype)
    &&& annos_resolve_ok(env, d0.annotations)
    &&& annos_resolved_rel(env, d0.annotations, d1.annotations)
}

/// Everything in the declaration resolves.
pub open spec fn decl_ok(env: ResolveEnvV, d0: DeclV<ScopedNameV>) -> bool {
    dtype_ok(env, d0.dtype) && annos_resolve_ok(env, d0.annotations)
}

/// The error a failing declaration reports: its body's, else an
/// annotation key's.
pub open spec fn decl_error(env: ResolveEnvV, d0: DeclV<ScopedNameV>, e: ResolveErrorV) -> bool {
    if dtype_ok(env, d0.dtype) {
        annos_error(env, d0.annotations, e)
    } else {
        dtype_error(env, d0.dtype, e)
    }
}

/// A module resolves to its image: same name and imports, each
/// declaration resolved in place, and the module-level annotation keys
/// resolved.
pub open spec fn module_resolves_to(
    env: ResolveEnvV,
    m0: ModuleV<ScopedNameV>,
    m1: ModuleV<TypeRefV>,
) -> bool {
    &&& m1.name == m0.name
    &&& m1.imports == m0.imports
    &&& m1.decls.len() == m0.decls.len()
    &&& forall|i: int| 0 <= i < m0.decls.len() ==> decl_resolves_to(
        env,
        #[trigger] m0.decls[i],
        m1.decls[i],
    )
    &&& annos_resolve_ok(env, m0.annotations)
    &&& annos_resolved_rel(env, m0.annotations, m1.annotations)
}

/// Everything in the module resolves.
pub open spec fn module_ok(env: ResolveEnvV, m0: ModuleV<ScopedNameV>) -> bool {
    (forall|i: int| 0 <= i < m0.decls.len() ==> decl_ok(env, #[trigger] m0.decls[i]))
        && annos_resolve_ok(env, m0.annotations)
}

/// The error a failing module reports: the first failing declaration's,
/// else a module-annotation key's.
pub open spec fn module_error(env: ResolveEnvV, m0: ModuleV<ScopedNameV>, e: ResolveErrorV) -> bool {
    if forall|i: int| 0 <= i < m0.decls.len() ==> decl_ok(env, #[trigger] m0.decls[i]) {
        annos_error(env, m0.annotations, e)
    } else {
        exists|i: int| 0 <= i < m0.decls.len() && (forall|j: int| 0 <= j < i ==> decl_ok(
            env,
            #[trigger] m0.decls[j],
        )) && decl_error(env, #[trigger] m0.decls[i], e)
    }
}

/// Resolves one field.
pub fn resolve_field(ctx: &ResolveCtx, field0: Field<ScopedName>) -> (r: Result<
    Field<TypeRef>,
    ResolveError,
>)
    ensures
        match r {
            Ok(f1) => field_resolves_to(ctx.env(), field0@, f1@),
            Err(e) => field_error(ctx.env(), field0@, e@),
        },
{
    let ghost f0v = field0@;
    let Field { name, serialized_name, type_expr, default, annotations } = field0;
    let type_expr1 = match resolve_type_expr(ctx, &type_expr) {
        Ok(t) => t,
        Err(e) => {
            return Err(e);
        },
    };
    let annotations1 = match resolve_annotations(ctx, annotations) {
        Ok(a) => a,
        Err(e) => {
            return Err(e);
        },
    };
    let f1 = Field { name, serialized_name, type_expr: type_expr1, default, annotations: annotations1 };
    proof {
        assert(f1@.name == f0v.name);
        assert(f1@.serialized_name == f0v.serialized_name);
        assert(f1@.default == f0v.default);
    }
    Ok(f1)
}

/// Resolves a list of fields in declared order, keeping that order, and
/// stopping at the first failing field.
pub fn resolve_fields(ctx: &ResolveCtx, fields0: Vec<Field<ScopedName>>) -> (r: Result<
    Vec<Field<TypeRef>>,
    ResolveError,
>)
    ensures
        match r {
            Ok(fs1) => fields_ok(ctx.env(), fields_view(fields0@)) && fields_resolve_to(
                ctx.env(),
                fields_view(fields0@),
                fields_view(fs1@),
            ),
            Err(e) => fields_error(ctx.env(), fields_view(fields0@), e@),
        },
{
    let ghost env = ctx.env();
    let ghost orig = fields_view(fields0@);
    let mut src = fields0;
    let mut out: Vec<Field<TypeRef>> = Vec::new();
    let ghost mut k: int = 0;

    while src.len() > 0
        invariant
            0 <= k <= orig.len(),
            env == ctx.env(),
            orig == fields_view(fields0@),
            fields_view(src@) =~= orig.skip(k),
            out@.len() == k,
            forall|i: int| 0 <= i < k ==> field_ok(env, #[trigger] orig[i]),
            forall|i: int| 0 <= i < k ==> field_resolves_to(
                env,
                #[trigger] orig[i],
                fields_view(out@)[i],
            ),
        decreases src@.len(),
    {
        let ghost prev = src@;
        proof {
            assert(fields_view(prev).len() == prev.len());
            assert(orig.skip(k).len() == orig.len() - k);
            assert(k < orig.len());
        }
        let f = src.remove(0);
        proof {
            assert(fields_view(prev)[0] == f@);
            assert(orig.skip(k)[0] == orig[k]);
            assert(f@ == orig[k]);
            assert(fields_view(src@) =~= orig.skip(k + 1)) by {
                assert(src@ =~= prev.drop_first());
                assert forall|i: int| 0 <= i < src@.len() implies fields_view(src@)[i]
                    == orig.skip(k + 1)[i] by {
                    assert(src@[i] == prev[i + 1]);
                    assert(fields_view(prev)[i + 1] == prev[i + 1]@);
                    assert(orig.skip(k)[i + 1] == orig[k + 1 + i]);
                    assert(orig.skip(k + 1)[i] == orig[k + 1 + i]);
                }
            }
        }
        let f1 = match resolve_field(ctx, f) {
            Ok(f1) => f1,
            Err(e) => {
                proof {
                    assert(field_error(env, orig[k], e@));
                    assert(fields_error(env, orig, e@));
                }
                return Err(e);
            },
        };
        let ghost old_out = out@;
        out.push(f1);
        proof {
            assert(fields_view(out@) =~= fields_view(old_out).push(f1@));
            assert forall|i: int| 0 <= i < k + 1 implies field_resolves_to(
                env,
                #[trigger] orig[i],
                fields_view(out@)[i],
            ) by {
                if i < k {
                    assert(fields_view(out@)[i] == fields_view(old_out)[i]);
                } else {
                    assert(fields_view(out@)[k] == f1@);
                }
            }
            k = k + 1;
        }
    }
    proof {
        assert(orig.skip(k).len() == orig.len() - k);
        assert(fields_view(src@).len() == src@.len());
        assert(k == orig.len());
        assert(fields_view(out@).len() == out@.len());
    }
    Ok(out)
}

/// Resolves a struct body under its own type parameters.
pub fn resolve_struct(ctx0: &ResolveCtx, struct0: StructDef<ScopedName>) -> (r: Result<
    DeclType<TypeRef>,
    ResolveError,
>)
    ensures
        match r {
            Ok(dt1) => dtype_resolves_to(
                ctx0.env(),
                DeclTypeV::Struct {
                    type_params: idents_view(struct0.type_params@),
                    fields: fields_view(struct0.fields@),
                },
                dt1@,
            ),
            Err(e) => dtype_error(
                ctx0.env(),
                DeclTypeV::Struct {
                    type_params: idents_view(struct0.type_params@),
                    fields: fields_view(struct0.fields@),
                },
                e@,
            ),
        },
{
    let ctx = ctx0.with_type_params(&struct0.type_params);
    proof {
        lemma_names_set_idents(struct0.type_params@);
        assert(ctx.env() =~= scoped_env(ctx0.env(), idents_view(struct0.type_params@)));
    }
    let StructDef { type_params, fields } = struct0;
    let fields1 = match resolve_fields(&ctx, fields) {
        Ok(fs) => fs,
        Err(e) => {
            return Err(e);
        },
    };
    Ok(DeclType::Struct(StructDef { type_params, fields: fields1 }))
}

/// Resolves a union body under its own type parameters.
pub fn resolve_union(ctx0: &ResolveCtx, union0: UnionDef<ScopedName>) -> (r: Result<
    DeclType<TypeRef>,
    ResolveError,
>)
    ensures
        match r {
            Ok(dt1) => dtype_resolves_to(
                ctx0.env(),
                DeclTypeV::Union {
                    type_params: idents_view(union0.type_params@),
                    fields: fields_view(union0.fields@),
                },
                dt1@,
            ),
            Err(e) => dtype_error(
                ctx0.env(),
                DeclTypeV::Union {
                    type_params: idents_view(union0.type_params@),
                    fields: fields_view(union0.fields@),
                },
                e@,
            ),
        },
{
    let ctx = ctx0.with_type_params(&union0.type_params);
    proof {
        lemma_names_set_idents(union0.type_params@);
        assert(ctx.env() =~= scoped_env(ctx0.env(), idents_view(union0.type_params@)));
    }
    let UnionDef { type_params, fields } = union0;
    let fields1 = match resolve_fields(&ctx, fields) {
        Ok(fs) => fs,
        Err(e) => {
            return Err(e);
        },
    };
    Ok(DeclType::Union(UnionDef { type_params, fields: fields1 }))
}

/// Resolves a type-alias body under its own type parameters.
pub fn resolve_type_alias(ctx0: &ResolveCtx, type0: TypeDef<ScopedName>) -> (r: Result<
    DeclType<TypeRef>,
    ResolveError,
>)
    ensures
        match r {
            Ok(dt1) => dtype_resolves_to(
                ctx0.env(),
                DeclTypeV::Type {
                    type_params: idents_view(type0.type_params@),
                    type_expr: type0.type_expr@,
                },
                dt1@,
            ),
            Err(e) => dtype_error(
                ctx0.env(),
                DeclTypeV::Type {
                    type_params: idents_view(type0.type_params@),
                    type_expr: type0.type_expr@,
                },
                e@,
            ),
        },
{
    let ctx = ctx0.with_type_params(&type0.type_params);
    proof {
        lemma_names_set_idents(type0.type_params@);
        assert(ctx.env() =~= scoped_env(ctx0.env(), idents_view(type0.type_params@)));
    }
    let TypeDef { type_params, type_expr } = type0;
    let type_expr1 = match resolve_type_expr(&ctx, &type_expr) {
        Ok(t) => t,
        Err(e) => {
            return Err(e);
        },
    };
    Ok(DeclType::Type(TypeDef { type_params, type_expr: type_expr1 }))
}

/// Resolves a newtype body under its own type parameters, carrying its
/// default value through.
pub fn resolve_newtype(ctx0: &ResolveCtx, newtype0: NewTypeDef<ScopedName>) -> (r: Result<
    DeclType<TypeRef>,
    ResolveError,
>)
    ensures
        match r {
            Ok(dt1) => dtype_resolves_to(
                ctx0.env(),
                DeclTypeV::Newtype {
                    type_params: idents_view(newtype0.type_params@),
                    type_expr: newtype0.type_expr@,
                    default: newtype0.default,
                },
                dt1@,
            ),
            Err(e) => dtype_error(
                ctx0.env(),
                DeclTypeV::Newtype {
                    type_params: idents_view(newtype0.type_params@),
                    type_expr: newtype0.type_expr@,
                    default: newtype0.default,
                },
                e@,
            ),
        },
{
    let ctx = ctx0.with_type_params(&newtype0.type_params);
    proof {
        lemma_names_set_idents(newtype0.type_params@);
        assert(ctx.env() =~= scoped_env(ctx0.env(), idents_view(newtype0.type_params@)));
    }
    let NewTypeDef { type_params, type_expr, default } = newtype0;
    let type_expr1 = match resolve_type_expr(&ctx, &type_expr) {
        Ok(t) => t,
        Err(e) => {
            return Err(e);
        },
    };
    Ok(DeclType::Newtype(NewTypeDef { type_params, type_expr: type_expr1, default }))
}

/// Resolves one declaration: its body under a fresh scope of its own
/// type parameters, its annotations outside any generic scope.
pub fn resolve_decl(ctx: &ResolveCtx, decl0: Decl<ScopedName>) -> (r: Result<
    Decl<TypeRef>,
    ResolveError,
>)
    ensures
        match r {
            Ok(d1) => decl_resolves_to(ctx.env(), decl0@, d1@),
            Err(e) => decl_error(ctx.env(), decl0@, e@),
        },
{
    let ghost d0v = decl0@;
    let Decl { name, version, dtype, annotations } = decl0;
    let dtype1 = match dtype {
        DeclType::Struct(s) => {
            match resolve_struct(ctx, s) {
                Ok(dt) => dt,
                Err(e) => {
                    return Err(e);
                },
            }
        },
        DeclType::Union(u) => {
            match resolve_union(ctx, u) {
                Ok(dt) => dt,
                Err(e) => {
                    return Err(e);
                },
            }
        },
        DeclType::Type(t) => {
            match resolve_type_alias(ctx, t) {
                Ok(dt) => dt,
                Err(e) => {
                    return Err(e);
                },
            }
        },
        DeclType::Newtype(n) => {
            match resolve_newtype(ctx, n) {
                Ok(dt) => dt,
                Err(e) => {
                    return Err(e);
                },
            }
        },
    };
    let annotations1 = match resolve_annotations(ctx, annotations) {
        Ok(a) => a,
        Err(e) => {
            return Err(e);
        },
    };
    Ok(Decl { name, version, dtype: dtype1, annotations: annotations1 })
}

/// Resolves a whole module against a context: each declaration in held
/// order, then the module-level annotations, all or nothing.
#[verifier::rlimit(100)]
pub fn resolve_module(ctx: &ResolveCtx, module0: Module0) -> (r: Result<Module1, ResolveError>)
    ensures
        match r {
            Ok(m1) => module_resolves_to(ctx.env(), module0@, m1@),
            Err(e) => module_error(ctx.env(), module0@, e@),
        },
{
    let ghost env = ctx.env();
    let ghost m0v = module0@;
    let Module { name, imports, decls, annotations } = module0;
    let ghost orig = decls_view(decls@);
    let mut src = decls;
    let mut out: Vec<Decl<TypeRef>> = Vec::new();
    let ghost mut k: int = 0;

    while src.len() > 0
        invariant
            0 <= k <= orig.len(),
            env == ctx.env(),
            m0v == module0@,
            orig == m0v.decls,
            decls_view(src@) =~= orig.skip(k),
            out@.len() == k,
            forall|i: int| 0 <= i < k ==> decl_ok(env, #[trigger] orig[i]),
            forall|i: int| 0 <= i < k ==> decl_resolves_to(
                env,
                #[trigger] orig[i],
                decls_view(out@)[i],
            ),
        decreases src@.len(),
    {
        let ghost prev = src@;
        proof {
            assert(decls_view(prev).len() == prev.len());
            assert(orig.skip(k).len() == orig.len() - k);
            assert(k < orig.len());
        }
        let d = src.remove(0);
        proof {
            assert(decls_view(prev)[0] == d@);
            assert(orig.skip(k)[0] == orig[k]);
            assert(d@ == orig[k]);
            assert(decls_view(src@) =~= orig.skip(k + 1)) by {
                assert(src@ =~= prev.drop_first());
                assert forall|i: int| 0 <= i < src@.len() implies decls_view(src@)[i]
                    == orig.skip(k + 1)[i] by {
                    assert(src@[i] == prev[i + 1]);
                    assert(decls_view(prev)[i + 1] == prev[i + 1]@);
                    assert(orig.skip(k)[i + 1] == orig[k + 1 + i]);
                    assert(orig.skip(k + 1)[i] == orig[k + 1 + i]);
                }
            }
        }
        let d1 = match resolve_decl(ctx, d) {
            Ok(d1) => d1,
            Err(e) => {
                proof {
                    assert(decl_error(env, orig[k], e@));
                    assert(!decl_ok(env, orig[k]));
                    assert(module_error(env, m0v, e@));
                }
                return Err(e);
            },
        };
        let ghost old_out = out@;
        out.push(d1);
        proof {
            assert(decls_view(out@) =~= decls_view(old_out).push(d1@));
            assert forall|i: int| 0 <= i < k + 1 implies decl_resolves_to(
                env,
                #[trigger] orig[i],
                decls_view(out@)[i],
            ) by {
                if i < k {
                    assert(decls_view(out@)[i] == decls_view(old_out)[i]);
                } else {
                    assert(decls_view(out@)[k] == d1@);
                }
            }
            k = k + 1;
        }
    }
    proof {
        assert(decls_view(src@).len() == src@.len());
        assert(orig.skip(k).len() == orig.len() - k);
        assert(k == orig.len());
    }
    let annotations1 = match resolve_annotations(ctx, annotations) {
        Ok(a) => a,
        Err(e) => {
            proof {
                assert(annos_error(env, m0v.annotations, e@));
            }
            return Err(e);
        },
    };
    let m1 = Module { name, imports, decls: out, annotations: annotations1 };
    proof {
        assert(m1@.name == m0v.name);
        assert(m1@.imports =~= m0v.imports);
        assert(decls_view(out@).len() == out@.len());
    }
    Ok(m1)
}

/// A read-only visitor over a module: one callback for every type
/// reference, one for every annotation key.
pub trait AstConsumer<TR> {
    fn consume_typeref(&mut self, t: TR);

    fn consume_scoped_name(&mut self, sn: ScopedName);
}

/// Walks a type expression: the root reference, then the parameters in
/// order.
pub fn consume_type_expr<TR: Clone, C: AstConsumer<TR>>(typeexpr: &TypeExpr<TR>, ac: &mut C)
    decreases *typeexpr,
{
    ac.consume_typeref(typeexpr.type_ref.clone());
    let mut i: usize = 0;
    while i < typeexpr.parameters.len()
        decreases typeexpr.parameters@.len() - i,
    {
        proof {
            assert(decreases_to!(*typeexpr => typeexpr.parameters));
            assert(decreases_to!(typeexpr.parameters => typeexpr.parameters@[i as int]));
        }
        consume_type_expr(&typeexpr.parameters[i], ac);
        i = i + 1;
    }
}

/// Walks an annotation table: every key, in held order.
pub fn consume_annotations<TR, C: AstConsumer<TR>>(annotations: &Annotations, ac: &mut C) {
    let mut i: usize = 0;
    while i < annotations.0.len()
        decreases annotations.0@.len() - i,
    {
        ac.consume_scoped_name(annotations.0[i].0.clone());
        i = i + 1;
    }
}

/// Walks a field: its annotations, then its type expression.
pub fn consume_field<TR: Clone, C: AstConsumer<TR>>(field: &Field<TR>, ac: &mut C) {
    consume_annotations(&field.annotations, ac);
    consume_type_expr(&field.type_expr, ac);
}

/// Walks fields in declared order.
pub fn consume_fields<TR: Clone, C: AstConsumer<TR>>(fields: &Vec<Field<TR>>, ac: &mut C) {
    let mut i: usize = 0;
    while i < fields.len()
        decreases fields@.len() - i,
    {
        consume_field(&fields[i], ac);
        i = i + 1;
    }
}

/// Walks a declaration: its annotations, then its body.
pub fn consume_decl<TR: Clone, C: AstConsumer<TR>>(decl: &Decl<TR>, ac: &mut C) {
    consume_annotations(&decl.annotations, ac);
    match &decl.dtype {
        DeclType::Struct(s) => consume_fields(&s.fields, ac),
        DeclType::Union(u) => consume_fields(&u.fields, ac),
        DeclType::Type(t) => consume_type_expr(&t.type_expr, ac),
        DeclType::Newtype(n) => consume_type_expr(&n.type_expr, ac),
    }
}

/// Walks a whole module: its annotations, then every declaration.
pub fn consume_module<TR: Clone, C: AstConsumer<TR>>(module: &Module<TR>, ac: &mut C) {
    consume_annotations(&module.annotations, ac);
    let mut i: usize = 0;
    while i < module.decls.len()
        decreases module.decls@.len() - i,
    {
        consume_decl(&module.decls[i], ac);
        i = i + 1;
    }
}

/// The module name an import clause refers to.
pub open spec fn import_module_name(i: ImportV) -> Seq<char> {
    match i {
        ImportV::ModuleName(mn) => mn,
        ImportV::ScopedName(sn) => sn.module_name,
    }
}

/// A non-empty module name qualifying a reference in a type expression.
pub open spec fn te_mentions(te: TypeExprV<ScopedNameV>, n: Seq<char>) -> bool
    decreases te,
{
    (te.type_ref.module_name == n && n.len() > 0) || exists|i: int|
        0 <= i < te.parameters.len() && te_mentions(#[trigger] te.parameters[i], n)
}

/// A non-empty module name qualifying an annotation key.
pub open spec fn annos_mention(a: Map<ScopedNameV, JsonValue>, n: Seq<char>) -> bool {
    n.len() > 0 && exists|s: ScopedNameV| #[trigger] a.contains_key(s) && s.module_name == n
}

/// A non-empty module name occurring in a field's annotations or type.
pub open spec fn field_mentions(f: FieldV<ScopedNameV>, n: Seq<char>) -> bool {
    annos_mention(f.annotations, n) || te_mentions(f.type_expr, n)
}

/// A non-empty module name occurring in a declaration body.
pub open spec fn dtype_mentions(dt: DeclTypeV<ScopedNameV>, n: Seq<char>) -> bool {
    match dt {
        DeclTypeV::Struct { fields, .. } => exists|i: int| 0 <= i < fields.len()
            && field_mentions(#[trigger] fields[i], n),
        DeclTypeV::Union { fields, .. } => exists|i: int| 0 <= i < fields.len()
            && field_mentions(#[trigger] fields[i], n),
        DeclTypeV::Type { type_expr, .. } => te_mentions(type_expr, n),
        DeclTypeV::Newtype { type_expr, .. } => te_mentions(type_expr, n),
    }
}

/// A non-empty module name occurring in a declaration.
pub open spec fn decl_mentions(d: DeclV<ScopedNameV>, n: Seq<char>) -> bool {
    annos_mention(d.annotations, n) || dtype_mentions(d.dtype, n)
}

/// A non-empty module name occurring anywhere in a module as a type
/// reference or annotation key.
pub open spec fn module_mentions(m: ModuleV<ScopedNameV>, n: Seq<char>) -> bool {
    annos_mention(m.annotations, n) || exists|i: int| 0 <= i < m.decls.len() && decl_mentions(
        #[trigger] m.decls[i],
        n,
    )
}

/// A module name the module refers to: the module of an import clause,
/// or a non-empty module name qualifying any type reference or
/// annotation key.
pub open spec fn module_ref_name(m: ModuleV<ScopedNameV>, n: Seq<char>) -> bool {
    (exists|i: int| 0 <= i < m.imports.len() && import_module_name(#[trigger] m.imports[i]) == n)
        || module_mentions(m, n)
}

/// Adds every non-empty module name qualifying an annotation key.
fn collect_annos_refs(annotations: &Annotations, refs: &mut Vec<ModuleName>)
    ensures
        forall|n: Seq<char>|
            #![trigger names_set(final(refs)@).contains(n)]
            names_set(final(refs)@).contains(n) <==> names_set(old(refs)@).contains(n)
                || annos_mention(annotations@, n),
{
    let ghost refs0 = refs@;
    let ghost pairs = crate::ast::anno_pairs(annotations.0@);
    let mut i: usize = 0;
    while i < annotations.0.len()
        invariant
            i <= annotations.0@.len(),
            pairs == crate::ast::anno_pairs(annotations.0@),
            forall|n: Seq<char>|
                #![trigger names_set(refs@).contains(n)]
                names_set(refs@).contains(n) <==> names_set(refs0).contains(n) || (n.len() > 0
                    && exists|w: int| 0 <= w < i && (#[trigger] pairs[w]).0.module_name == n),
        decreases annotations.0@.len() - i,
    {
        let ghost mid = refs@;
        proof {
            assert(pairs[i as int].0 == annotations.0@[i as int].0@);
        }
        if !annotations.0[i].0.module_name.as_str().is_empty() {
            refs.push(annotations.0[i].0.module_name.clone());
            proof {
                assert(refs@[refs@.len() - 1]@ == pairs[i as int].0.module_name);
                assert(pairs[i as int].0.module_name.len() > 0);
                assert forall|n: Seq<char>|
                    #![trigger names_set(refs@).contains(n)]
                    names_set(refs@).contains(n) == (names_set(refs0).contains(n) || (n.len() > 0
                        && exists|w: int| 0 <= w < i + 1 && (#[trigger] pairs[w]).0.module_name
                        == n)) by {
                    if names_set(refs@).contains(n) {
                        let a = choose|a: int| 0 <= a < refs@.len() && refs@[a]@ == n;
                        if a < mid.len() {
                            assert(names_set(mid).contains(n));
                        } else {
                            assert(pairs[i as int].0.module_name == n && n.len() > 0);
                        }
                    }
                    if names_set(refs0).contains(n) {
                        assert(names_set(mid).contains(n));
                        let a = choose|a: int| 0 <= a < mid.len() && mid[a]@ == n;
                        assert(refs@[a]@ == n);
                    }
                    if n.len() > 0 && exists|w: int| 0 <= w < i + 1 && (
                    #[trigger] pairs[w]).0.module_name == n {
                        let w = choose|w: int|
                            0 <= w < i + 1 && (#[trigger] pairs[w]).0.module_name == n;
                        if w < i {
                            assert(names_set(mid).contains(n));
                            let a = choose|a: int| 0 <= a < mid.len() && mid[a]@ == n;
                            assert(refs@[a]@ == n);
                        } else {
                            assert(refs@[refs@.len() - 1]@ == n);
                        }
                    }
                }
            }
        } else {
            proof {
                assert(pairs[i as int].0.module_name.len() == 0);
                assert forall|n: Seq<char>|
                    #![trigger names_set(refs@).contains(n)]
                    names_set(refs@).contains(n) == (names_set(refs0).contains(n) || (n.len() > 0
                        && exists|w: int| 0 <= w < i + 1 && (#[trigger] pairs[w]).0.module_name
                        == n)) by {
                    if n.len() > 0 && exists|w: int| 0 <= w < i + 1 && (
                    #[trigger] pairs[w]).0.module_name == n {
                        let w = choose|w: int|
                            0 <= w < i + 1 && (#[trigger] pairs[w]).0.module_name == n;
                        if w == i {
                            assert(false);
                        }
                    }
                }
            }
        }
        i = i + 1;
    }
    proof {
        assert forall|n: Seq<char>|
            #![trigger names_set(refs@).contains(n)]
            names_set(refs@).contains(n) == (names_set(refs0).contains(n) || annos_mention(
                annotations@,
                n,
            )) by {
            if n.len() > 0 && exists|w: int| 0 <= w < pairs.len() && (
            #[trigger] pairs[w]).0.module_name == n {
                let w = choose|w: int|
                    0 <= w < pairs.len() && (#[trigger] pairs[w]).0.module_name == n;
                lemma_pairs_map_contains_at(pairs, w);
                assert(annotations@.contains_key(pairs[w].0));
                assert(annos_mention(annotations@, n));
            }
            if annos_mention(annotations@, n) {
                let s = choose|s: ScopedNameV| #[trigger] annotations@.contains_key(s)
                    && s.module_name == n;
                lemma_pairs_map_domain(pairs, s);
                let w = choose|w: int| 0 <= w < pairs.len() && pairs[w].0 == s;
                assert(pairs[w].0.module_name == n);
            }
        }
    }
}

/// Adds every non-empty module name qualifying a reference in a type
/// expression.
fn collect_te_refs(typeexpr: &TypeExpr0, refs: &mut Vec<ModuleName>)
    ensures
        forall|n: Seq<char>|
            #![trigger names_set(final(refs)@).contains(n)]
            names_set(final(refs)@).contains(n) <==> names_set(old(refs)@).contains(n)
                || te_mentions(typeexpr@, n),
    decreases *typeexpr,
{
    let ghost refs0 = refs@;
    let ghost src_tes = tes_view(typeexpr.parameters@);
    proof {
        lemma_tes_view_index(typeexpr.parameters@);
    }
    if !typeexpr.type_ref.module_name.as_str().is_empty() {
        let ghost mid = refs@;
        refs.push(typeexpr.type_ref.module_name.clone());
        proof {
            assert forall|n: Seq<char>|
                #![trigger names_set(refs@).contains(n)]
                names_set(refs@).contains(n) == (names_set(mid).contains(n) || (
                typeexpr@.type_ref.module_name == n && n.len() > 0)) by {
                if names_set(refs@).contains(n) {
                    let a = choose|a: int| 0 <= a < refs@.len() && refs@[a]@ == n;
                    if a < mid.len() {
                        assert(names_set(mid).contains(n));
                    }
                }
                if names_set(mid).contains(n) {
                    let a = choose|a: int| 0 <= a < mid.len() && mid[a]@ == n;
                    assert(refs@[a]@ == n);
                }
                if typeexpr@.type_ref.module_name == n && n.len() > 0 {
                    assert(refs@[refs@.len() - 1]@ == n);
                }
            }
        }
    }
    let ghost root_done = refs@;
    let mut idx: usize = 0;
    while idx < typeexpr.parameters.len()
        invariant
            idx <= typeexpr.parameters@.len(),
            src_tes == tes_view(typeexpr.parameters@),
            src_tes.len() == typeexpr.parameters@.len(),
            forall|i: int| 0 <= i < src_tes.len() ==> src_tes[i] == te_view(
                #[trigger] typeexpr.parameters@[i],
            ),
            forall|n: Seq<char>|
                #![trigger names_set(refs@).contains(n)]
                names_set(refs@).contains(n) <==> names_set(root_done).contains(n) || exists|
                    i: int,
                | 0 <= i < idx && te_mentions(#[trigger] src_tes[i], n),
        decreases typeexpr.parameters@.len() - idx,
    {
        proof {
            assert(decreases_to!(*typeexpr => typeexpr.parameters));
            assert(decreases_to!(typeexpr.parameters => typeexpr.parameters@[idx as int]));
        }
        let ghost mid = refs@;
        collect_te_refs(&typeexpr.parameters[idx], refs);
        proof {
            assert forall|n: Seq<char>|
                #![trigger names_set(refs@).contains(n)]
                names_set(refs@).contains(n) == (names_set(root_done).contains(n) || exists|
                    i: int,
                | 0 <= i < idx + 1 && te_mentions(#[trigger] src_tes[i], n)) by {
                assert(names_set(refs@).contains(n) == (names_set(mid).contains(n)
                    || te_mentions(src_tes[idx as int], n)));
                if names_set(refs@).contains(n) {
                    if names_set(mid).contains(n) {
                        if !names_set(root_done).contains(n) {
                            let i = choose|i: int|
                                0 <= i < idx && te_mentions(#[trigger] src_tes[i], n);
                        }
                    } else {
                        assert(te_mentions(src_tes[idx as int], n));
                    }
                }
                if exists|i: int| 0 <= i < idx + 1 && te_mentions(#[trigger] src_tes[i], n) {
                    let i = choose|i: int|
                        0 <= i < idx + 1 && te_mentions(#[trigger] src_tes[i], n);
                    if i < idx {
                        assert(names_set(mid).contains(n));
                    }
                }
            }
        }
        idx = idx + 1;
    }
    proof {
        assert forall|n: Seq<char>|
            #![trigger names_set(refs@).contains(n)]
            names_set(refs@).contains(n) == (names_set(refs0).contains(n) || te_mentions(
                typeexpr@,
                n,
            )) by {
            assert(typeexpr@.parameters == src_tes);
            if te_mentions(typeexpr@, n) && !(typeexpr@.type_ref.module_name == n && n.len()
                > 0) {
                let i = choose|i: int|
                    0 <= i < typeexpr@.parameters.len() && te_mentions(
                        #[trigger] typeexpr@.parameters[i],
                        n,
                    );
                assert(te_mentions(src_tes[i], n));
            }
        }
    }
}

/// Adds every non-empty module name occurring in a list of fields.
fn collect_fields_refs(fields: &Vec<Field<ScopedName>>, refs: &mut Vec<ModuleName>)
    ensures
        forall|n: Seq<char>|
            #![trigger names_set(final(refs)@).contains(n)]
            names_set(final(refs)@).contains(n) <==> names_set(old(refs)@).contains(n) || exists|
                i: int,
            | 0 <= i < fields_view(fields@).len() && field_mentions(fields_view(fields@)[i], n),
{
    let ghost refs0 = refs@;
    let ghost fv = fields_view(fields@);
    let mut i: usize = 0;
    while i < fields.len()
        invariant
            i <= fields@.len(),
            fv == fields_view(fields@),
            forall|n: Seq<char>|
                #![trigger names_set(refs@).contains(n)]
                names_set(refs@).contains(n) <==> names_set(refs0).contains(n) || exists|w: int|
                    0 <= w < i && field_mentions(#[trigger] fv[w], n),
        decreases fields@.len() - i,
    {
        let ghost mid = refs@;
        collect_annos_refs(&fields[i].annotations, refs);
        let ghost mid2 = refs@;
        collect_te_refs(&fields[i].type_expr, refs);
        proof {
            assert(fv[i as int] == fields@[i as int]@);
            assert forall|n: Seq<char>|
                #![trigger names_set(refs@).contains(n)]
                names_set(refs@).contains(n) == (names_set(refs0).contains(n) || exists|w: int|
                    0 <= w < i + 1 && field_mentions(#[trigger] fv[w], n)) by {
                assert(names_set(mid2).contains(n) == (names_set(mid).contains(n)
                    || annos_mention(fv[i as int].annotations, n)));
                assert(names_set(refs@).contains(n) == (names_set(mid2).contains(n)
                    || te_mentions(fv[i as int].type_expr, n)));
                if names_set(refs@).contains(n) && !names_set(refs0).contains(n) {
                    if names_set(mid).contains(n) {
                        let w = choose|w: int|
                            0 <= w < i && field_mentions(#[trigger] fv[w], n);
                    } else {
                        assert(field_mentions(fv[i as int], n));
                    }
                }
                if exists|w: int| 0 <= w < i + 1 && field_mentions(#[trigger] fv[w], n) {
                    let w = choose|w: int|
                        0 <= w < i + 1 && field_mentions(#[trigger] fv[w], n);
                    if w < i {
                        assert(names_set(mid).contains(n));
                        assert(names_set(mid2).contains(n));
                    }
                }
            }
        }
        i = i + 1;
    }
}

/// Adds every non-empty module name occurring in a declaration.
fn collect_decl_refs(decl: &Decl<ScopedName>, refs: &mut Vec<ModuleName>)
    ensures
        forall|n: Seq<char>|
            #![trigger names_set(final(refs)@).contains(n)]
            names_set(final(refs)@).contains(n) <==> names_set(old(refs)@).contains(n)
                || decl_mentions(decl@, n),
{
    let ghost refs0 = refs@;
    collect_annos_refs(&decl.annotations, refs);
    let ghost mid = refs@;
    match &decl.dtype {
        DeclType::Struct(s) => {
            collect_fields_refs(&s.fields, refs);
            proof {
                assert(decl@.dtype matches DeclTypeV::Struct { fields, .. } && fields
                    == fields_view(s.fields@));
            }
        },
        DeclType::Union(u) => {
            collect_fields_refs(&u.fields, refs);
            proof {
                assert(decl@.dtype matches DeclTypeV::Union { fields, .. } && fields
                    == fields_view(u.fields@));
            }
        },
        DeclType::Type(t) => {
            collect_te_refs(&t.type_expr, refs);
            proof {
                assert(decl@.dtype matches DeclTypeV::Type { type_expr, .. } && type_expr
                    == t.type_expr@);
            }
        },
        DeclType::Newtype(nt) => {
            collect_te_refs(&nt.type_expr, refs);
            proof {
                assert(decl@.dtype matches DeclTypeV::Newtype { type_expr, .. } && type_expr
                    == nt.type_expr@);
            }
        },
    }
}

/// The modules a raw module refers to, exactly: the module of every
/// import clause, plus every non-empty module name qualifying a type
/// reference or annotation key anywhere in the module.
pub fn find_module_refs(module: &Module0) -> (r: Vec<ModuleName>)
    ensures
        forall|n: Seq<char>|
            #![trigger names_set(r@).contains(n)]
            names_set(r@).contains(n) <==> module_ref_name(module@, n),
{
    let mut refs: Vec<ModuleName> = Vec::new();
    proof {
        assert forall|n: Seq<char>| !names_set(refs@).contains(n) by {
            if names_set(refs@).contains(n) {
                let a = choose|a: int| 0 <= a < refs@.len() && refs@[a]@ == n;
            }
        }
    }
    collect_annos_refs(&module.annotations, &mut refs);
    let ghost dv = decls_view(module.decls@);
    let mut i: usize = 0;
    while i < module.decls.len()
        invariant
            i <= module.decls@.len(),
            dv == decls_view(module.decls@),
            forall|n: Seq<char>|
                #![trigger names_set(refs@).contains(n)]
                names_set(refs@).contains(n) <==> annos_mention(module@.annotations, n) || exists|
                    w: int,
                | 0 <= w < i && decl_mentions(#[trigger] dv[w], n),
        decreases module.decls@.len() - i,
    {
        let ghost mid = refs@;
        collect_decl_refs(&module.decls[i], &mut refs);
        proof {
            assert(dv[i as int] == module.decls@[i as int]@);
            assert forall|n: Seq<char>|
                #![trigger names_set(refs@).contains(n)]
                names_set(refs@).contains(n) == (annos_mention(module@.annotations, n) || exists|
                    w: int,
                | 0 <= w < i + 1 && decl_mentions(#[trigger] dv[w], n)) by {
                assert(names_set(refs@).contains(n) == (names_set(mid).contains(n)
                    || decl_mentions(dv[i as int], n)));
                if names_set(refs@).contains(n) && !annos_mention(module@.annotations, n) {
                    if names_set(mid).contains(n) {
                        let w = choose|w: int| 0 <= w < i && decl_mentions(#[trigger] dv[w], n);
                    } else {
                        assert(decl_mentions(dv[i as int], n));
                    }
                }
                if exists|w: int| 0 <= w < i + 1 && decl_mentions(#[trigger] dv[w], n) {
                    let w = choose|w: int| 0 <= w < i + 1 && decl_mentions(#[trigger] dv[w], n);
                    if w < i {
                        assert(names_set(mid).contains(n));
                    }
                }
            }
        }
        i = i + 1;
    }
    let ghost walked = refs@;
    proof {
        assert(dv == module@.decls);
        assert forall|n: Seq<char>|
            #![trigger names_set(walked).contains(n)]
            names_set(walked).contains(n) == module_mentions(module@, n) by {
            assert(names_set(refs@).contains(n) <==> annos_mention(module@.annotations, n)
                || exists|w: int| 0 <= w < dv.len() && decl_mentions(#[trigger] dv[w], n));
        }
    }
    let mut i2: usize = 0;
    while i2 < module.imports.len()
        invariant
            i2 <= module.imports@.len(),
            forall|n: Seq<char>|
                #![trigger names_set(refs@).contains(n)]
                names_set(refs@).contains(n) <==> names_set(walked).contains(n) || exists|w: int|
                    0 <= w < i2 && import_module_name(#[trigger] module@.imports[w]) == n,
            forall|n: Seq<char>|
                #![trigger names_set(walked).contains(n)]
                names_set(walked).contains(n) <==> module_mentions(module@, n),
        decreases module.imports@.len() - i2,
    {
        let ghost mid = refs@;
        proof {
            assert(module@.imports.len() == module.imports@.len());
            assert(module@.imports[i2 as int] == module.imports@[i2 as int]@);
        }
        match &module.imports[i2] {
            Import::ModuleName(mn) => {
                refs.push(mn.clone());
                proof {
                    assert(refs@[refs@.len() - 1]@ == import_module_name(
                        module@.imports[i2 as int],
                    ));
                }
            },
            Import::ScopedName(sn) => {
                refs.push(sn.module_name.clone());
                proof {
                    assert(refs@[refs@.len() - 1]@ == import_module_name(
                        module@.imports[i2 as int],
                    ));
                }
            },
        }
        proof {
            assert forall|n: Seq<char>|
                #![trigger names_set(refs@).contains(n)]
                names_set(refs@).contains(n) == (names_set(walked).contains(n) || exists|w: int|
                    0 <= w < i2 + 1 && import_module_name(#[trigger] module@.imports[w]) == n)
                by {
                if names_set(refs@).contains(n) {
                    let a = choose|a: int| 0 <= a < refs@.len() && refs@[a]@ == n;
                    if a < mid.len() {
                        assert(names_set(mid).contains(n));
                        if !names_set(walked).contains(n) {
                            let w = choose|w: int|
                                0 <= w < i2 && import_module_name(
                                    #[trigger] module@.imports[w],
                                ) == n;
                        }
                    } else {
                        assert(import_module_name(module@.imports[i2 as int]) == n);
                    }
                }
                if names_set(walked).contains(n) {
                    assert(names_set(mid).contains(n));
                    let a = choose|a: int| 0 <= a < mid.len() && mid[a]@ == n;
                    assert(refs@[a]@ == n);
                }
                if exists|w: int| 0 <= w < i2 + 1 && import_module_name(
                    #[trigger] module@.imports[w],
                ) == n {
                    let w = choose|w: int|
                        0 <= w < i2 + 1 && import_module_name(#[trigger] module@.imports[w])
                            == n;
                    if w < i2 {
                        assert(names_set(mid).contains(n)) by {
                            assert(import_module_name(module@.imports[w]) == n);
                        }
                        let a = choose|a: int| 0 <= a < mid.len() && mid[a]@ == n;
                        assert(refs@[a]@ == n);
                    } else {
                        assert(refs@[refs@.len() - 1]@ == n);
                    }
                }
            }
        }
        i2 = i2 + 1;
    }
    refs
}

/// Every import clause carries a non-empty module name, as the parser
/// guarantees for dotted module names.
pub open spec fn imports_wf(imports: Seq<ImportV>) -> bool {
    forall|i: int| 0 <= i < imports.len() ==> import_module_name(#[trigger] imports[i]).len() > 0
}

/// Whether an import list already holds a whole-module import of the
/// given name.
pub open spec fn has_module_import(imports: Seq<ImportV>, n: Seq<char>) -> bool {
    exists|i: int| 0 <= i < imports.len() && imports[i] == ImportV::ModuleName(n)
}

/// The entries the import clauses contribute to the expanded-imports
/// table, in clause order: a scoped-name import contributes itself
/// under its short name; a whole-module import of a resolved module
/// contributes every declaration of that module; a whole-module import
/// of an unresolved module contributes nothing.
pub open spec fn expanded_pairs(
    mods: Map<Seq<char>, ModuleV<TypeRefV>>,
    imports: Seq<ImportV>,
) -> Seq<(Seq<char>, ScopedNameV)>
    decreases imports.len(),
{
    if imports.len() == 0 {
        Seq::empty()
    } else {
        expanded_pairs(mods, imports.drop_last()) + import_contribution(mods, imports.last())
    }
}

/// One import clause's contribution to the expanded-imports table.
pub open spec fn import_contribution(
    mods: Map<Seq<char>, ModuleV<TypeRefV>>,
    imp: ImportV,
) -> Seq<(Seq<char>, ScopedNameV)> {
    match imp {
        ImportV::ScopedName(sn) => seq![(sn.name, sn)],
        ImportV::ModuleName(mn) => if mods.contains_key(mn) {
            decl_import_pairs(mn, mods[mn].decls)
        } else {
            Seq::empty()
        },
    }
}

/// The entries a whole-module import contributes: one per declaration.
pub open spec fn decl_import_pairs(mn: Seq<char>, decls: Seq<DeclV<TypeRefV>>) -> Seq<
    (Seq<char>, ScopedNameV),
> {
    Seq::new(decls.len(), |i: int| (decls[i].name, ScopedNameV { module_name: mn, name: decls[i].name }))
}

/// A work item of the driver's depth-first traversal: enter a module by
/// name, or finish one whose references have all been entered.
enum WorkItem {
    Enter(ModuleName),
    Finish(ModuleName, Module0),
}

/// The fresh declaration-name list of a module.
fn decl_names(decls: &Vec<Decl<ScopedName>>) -> (r: Vec<Ident>)
    ensures
        r@.len() == decls@.len(),
        forall|i: int| 0 <= i < decls@.len() ==> r@[i]@ == decls_view(decls@)[i].name,
{
    let mut r: Vec<Ident> = Vec::new();
    let mut i: usize = 0;
    while i < decls.len()
        invariant
            i <= decls@.len(),
            r@.len() == i,
            forall|m: int| 0 <= m < i ==> r@[m]@ == decls_view(decls@)[m].name,
        decreases decls@.len() - i,
    {
        r.push(decls[i].name.clone());
        i = i + 1;
    }
    r
}

/// Whether the declaration names of a module are pairwise distinct.
fn check_decl_names_unique(decls: &Vec<Decl<ScopedName>>) -> (b: bool)
    ensures
        b == decl_names_unique(decls_view(decls@)),
{
    let ghost dv = decls_view(decls@);
    let mut i: usize = 0;
    while i < decls.len()
        invariant
            i <= decls@.len(),
            dv == decls_view(decls@),
            forall|p: int, q: int| 0 <= p < q < i ==> dv[p].name != dv[q].name,
        decreases decls@.len() - i,
    {
        let mut j: usize = 0;
        while j < i
            invariant
                j <= i < decls@.len(),
                dv == decls_view(decls@),
                forall|p: int, q: int| 0 <= p < q < i ==> dv[p].name != dv[q].name,
                forall|p: int| 0 <= p < j ==> dv[p].name != dv[i as int].name,
            decreases i - j,
        {
            proof {
                assert(dv[j as int].name == decls@[j as int]@.name);
                assert(dv[i as int].name == decls@[i as int]@.name);
            }
            if decls[j].name == decls[i].name {
                return false;
            }
            j = j + 1;
        }
        i = i + 1;
    }
    true
}

/// Whether the field names of a field list are pairwise distinct.
fn check_field_names_unique(fields: &Vec<Field<ScopedName>>) -> (b: bool)
    ensures
        b == crate::ast::field_names_unique(fields_view(fields@)),
{
    let ghost fv = fields_view(fields@);
    let mut i: usize = 0;
    while i < fields.len()
        invariant
            i <= fields@.len(),
            fv == fields_view(fields@),
            forall|p: int, q: int| 0 <= p < q < i ==> fv[p].name != fv[q].name,
        decreases fields@.len() - i,
    {
        let mut j: usize = 0;
        while j < i
            invariant
                j <= i < fields@.len(),
                fv == fields_view(fields@),
                forall|p: int, q: int| 0 <= p < q < i ==> fv[p].name != fv[q].name,
                forall|p: int| 0 <= p < j ==> fv[p].name != fv[i as int].name,
            decreases i - j,
        {
            proof {
                assert(fv[j as int].name == fields@[j as int]@.name);
                assert(fv[i as int].name == fields@[i as int]@.name);
            }
            if fields[j].name == fields[i].name {
                return false;
            }
            j = j + 1;
        }
        i = i + 1;
    }
    true
}

/// Whether a raw module meets the post-parse guarantees this core
/// relies on: unique declaration names, unique field names per body,
/// and non-empty module names on every import clause.
fn check_module_wf(m: &Module0) -> (b: bool)
    ensures
        b == (module_wf(m@) && imports_wf(m@.imports)),
{
    let mut w: usize = 0;
    while w < m.imports.len()
        invariant
            w <= m.imports@.len(),
            forall|q: int| 0 <= q < w ==> import_module_name(#[trigger] m@.imports[q]).len() > 0,
        decreases m.imports@.len() - w,
    {
        proof {
            assert(m@.imports[w as int] == m.imports@[w as int]@);
        }
        let empty = match &m.imports[w] {
            Import::ModuleName(mn) => mn.as_str().is_empty(),
            Import::ScopedName(sn) => sn.module_name.as_str().is_empty(),
        };
        if empty {
            proof {
                assert(import_module_name(m@.imports[w as int]).len() == 0);
            }
            return false;
        }
        proof {
            assert(import_module_name(m@.imports[w as int]).len() > 0);
        }
        w = w + 1;
    }
    if !check_decl_names_unique(&m.decls) {
        return false;
    }
    let ghost dv = decls_view(m.decls@);
    let mut i: usize = 0;
    while i < m.decls.len()
        invariant
            i <= m.decls@.len(),
            dv == decls_view(m.decls@),
            decl_names_unique(dv),
            forall|p: int| 0 <= p < i ==> decl_fields_unique(#[trigger] dv[p].dtype),
        decreases m.decls@.len() - i,
    {
        let ok = match &m.decls[i].dtype {
            DeclType::Struct(s) => check_field_names_unique(&s.fields),
            DeclType::Union(u) => check_field_names_unique(&u.fields),
            _ => true,
        };
        proof {
            assert(dv[i as int].dtype == m.decls@[i as int]@.dtype);
        }
        if !ok {
            return false;
        }
        i = i + 1;
    }
    true
}

/// Whether a work item concerns the given module name.
spec fn task_names(t: WorkItem, n: Seq<char>) -> bool {
    match t {
        WorkItem::Enter(m) => m@ == n,
        WorkItem::Finish(m, _) => m@ == n,
    }
}

/// Some work item above the given position concerns the name.
spec fn pending_after(stack: Seq<WorkItem>, pos: int, n: Seq<char>) -> bool {
    exists|t2: int| pos < t2 < stack.len() && task_names(#[trigger] stack[t2], n)
}

/// A finish item's imports are each resolved already or staged above it.
spec fn finish_ok(stack: Seq<WorkItem>, pos: int, mods: Map<Seq<char>, ModuleV<TypeRefV>>) -> bool {
    match stack[pos] {
        WorkItem::Finish(_, m0) => forall|i: int| 0 <= i < m0@.imports.len() ==> mods.contains_key(
            import_module_name(#[trigger] m0@.imports[i]),
        ) || pending_after(stack, pos, import_module_name(m0@.imports[i])),
        WorkItem::Enter(_) => true,
    }
}

/// A finish item's payload has well-formed import clauses.
spec fn finish_imports_ok(t: WorkItem) -> bool {
    match t {
        WorkItem::Finish(_, m0) => imports_wf(m0@.imports),
        WorkItem::Enter(_) => true,
    }
}

/// Every finish item on the stack has its imports accounted for.
spec fn stack_ok(stack: Seq<WorkItem>, mods: Map<Seq<char>, ModuleV<TypeRefV>>) -> bool {
    forall|t: int| 0 <= t < stack.len() ==> #[trigger] finish_ok(stack, t, mods)
}

/// The resolved map is closed under imports: every import clause of
/// every resolved module names a resolved module.
pub open spec fn modules_closed(mods: Map<Seq<char>, ModuleV<TypeRefV>>) -> bool {
    forall|k: Seq<char>, i: int|
        #![trigger mods[k].imports[i]]
        mods.contains_key(k) && 0 <= i < mods[k].imports.len() ==> mods.contains_key(
            import_module_name(mods[k].imports[i]),
        )
}

/// The driver: holds the loader and the modules resolved so far, keyed
/// by the name they were requested or referenced under.  The map only
/// grows; a module is published only after every module it references
/// has been.
pub struct Resolver<L: AdlLoader> {
    loader: L,
    modules: Vec<(ModuleName, Module1)>,
}

impl<L: AdlLoader> Resolver<L> {
    /// The resolved modules, by name.
    pub closed spec fn map_of(&self) -> Map<Seq<char>, ModuleV<TypeRefV>> {
        keyed_map(self.modules@)
    }

    /// A fresh driver with no module resolved.
    pub fn new(loader: L) -> (r: Self)
        ensures
            r.map_of() == Map::<Seq<char>, ModuleV<TypeRefV>>::empty(),
            modules_closed(r.map_of()),
            map_valid(r.map_of()),
    {
        let r = Resolver { loader, modules: Vec::new() };
        proof {
            assert(r.modules@.map_values(|p: (ModuleName, Module1)| (p.0@, p.1@))
                =~= Seq::<(Seq<char>, ModuleV<TypeRefV>)>::empty());
        }
        r
    }

    /// The resolved module of that name, if there is one.
    pub fn get_module(&self, module_name: &ModuleName) -> (r: Option<&Module1>)
        ensures
            match r {
                Some(m) => self.map_of().contains_key(module_name@) && m@
                    == self.map_of()[module_name@],
                None => !self.map_of().contains_key(module_name@),
            },
    {
        modules_lookup(&self.modules, module_name)
    }

    /// The declaration a fully qualified scoped name refers to, if its
    /// module is resolved and declares it.
    pub fn get_decl(&self, scoped_name: &ScopedName) -> (r: Option<&Decl1>)
        ensures
            match r {
                Some(d) => self.map_of().contains_key(scoped_name@.module_name)
                    && has_decl_named(
                    self.map_of()[scoped_name@.module_name].decls,
                    scoped_name@.name,
                ) && d@.name == scoped_name@.name && exists|i: int|
                    0 <= i < self.map_of()[scoped_name@.module_name].decls.len()
                        && self.map_of()[scoped_name@.module_name].decls[i] == d@,
                None => !self.map_of().contains_key(scoped_name@.module_name)
                    || !has_decl_named(
                    self.map_of()[scoped_name@.module_name].decls,
                    scoped_name@.name,
                ),
            },
    {
        match modules_lookup(&self.modules, &scoped_name.module_name) {
            None => None,
            Some(module1) => {
                match find_decl_index(&module1.decls, &scoped_name.name) {
                    None => None,
                    Some(i) => {
                        let d = &module1.decls[i];
                        proof {
                            assert(decls_view(module1.decls@)[i as int].name == scoped_name.name@);
                            assert(has_decl_named(decls_view(module1.decls@), scoped_name.name@));
                            assert(self.map_of()[scoped_name@.module_name].decls[i as int] == d@);
                            assert(exists|w: int|
                                0 <= w < self.map_of()[scoped_name@.module_name].decls.len()
                                    && self.map_of()[scoped_name@.module_name].decls[w] == d@);
                        }
                        Some(d)
                    },
                }
            },
        }
    }

    /// The names of the resolved modules: every held name, each listed
    /// exactly once, in an order that is not part of the contract.
    pub fn get_module_names(&self) -> (r: Vec<ModuleName>)
        ensures
            forall|i: int, j: int| 0 <= i < j < r@.len() ==> r@[i]@ != r@[j]@,
            forall|i: int| 0 <= i < r@.len() ==> self.map_of().contains_key(r@[i]@),
            forall|k: Seq<char>| self.map_of().contains_key(k) ==> exists|i: int|
                0 <= i < r@.len() && r@[i]@ == k,
    {
        let ghost pairs = self.modules@.map_values(|p: (ModuleName, Module1)| (p.0@, p.1@));
        let mut r: Vec<ModuleName> = Vec::new();
        let mut i: usize = 0;
        while i < self.modules.len()
            invariant
                i <= self.modules@.len(),
                pairs == self.modules@.map_values(|p: (ModuleName, Module1)| (p.0@, p.1@)),
                forall|a: int, b: int| 0 <= a < b < r@.len() ==> r@[a]@ != r@[b]@,
                forall|a: int| 0 <= a < r@.len() ==> self.map_of().contains_key(r@[a]@),
                forall|w: int| 0 <= w < i ==> exists|a: int| 0 <= a < r@.len() && (
                #[trigger] r@[a])@ == (#[trigger] self.modules@[w]).0@,
            decreases self.modules@.len() - i,
        {
            let mut seen = false;
            let mut j: usize = 0;
            while j < r.len()
                invariant
                    j <= r@.len(),
                    i < self.modules@.len(),
                    seen <==> exists|a: int| 0 <= a < j && (#[trigger] r@[a])@
                        == self.modules@[i as int].0@,
                decreases r@.len() - j,
            {
                if r[j] == self.modules[i].0 {
                    proof {
                        assert(r@[j as int]@ == self.modules@[i as int].0@);
                    }
                    seen = true;
                }
                j = j + 1;
            }
            if !seen {
                let ghost old_r = r@;
                r.push(self.modules[i].0.clone());
                proof {
                    assert(r@[r@.len() - 1]@ == self.modules@[i as int].0@);
                    assert(pairs[i as int].0 == self.modules@[i as int].0@);
                    lemma_pairs_map_contains_at(pairs, i as int);
                    assert forall|w: int| 0 <= w < i + 1 implies exists|a: int|
                        0 <= a < r@.len() && (#[trigger] r@[a])@ == (
                        #[trigger] self.modules@[w]).0@ by {
                        if w < i {
                            let a = choose|a: int|
                                0 <= a < old_r.len() && old_r[a]@ == self.modules@[w].0@;
                            assert(r@[a]@ == self.modules@[w].0@);
                        } else {
                            assert(r@[r@.len() - 1]@ == self.modules@[w].0@);
                        }
                    }
                }
            }
            i = i + 1;
        }
        proof {
            assert forall|k: Seq<char>| self.map_of().contains_key(k) implies exists|a: int|
                0 <= a < r@.len() && r@[a]@ == k by {
                lemma_pairs_map_domain(pairs, k);
                let w = choose|w: int| 0 <= w < pairs.len() && pairs[w].0 == k;
                assert(self.modules@[w].0@ == k);
            }
        }
        r
    }

    /// Injects the implicit import of `sys.annotations` into a module
    /// that neither is that module nor already imports it whole.
    pub fn add_default_imports(&self, module: &mut Module0)
        ensures
            final(module)@.name == old(module)@.name,
            final(module)@.decls == old(module)@.decls,
            final(module)@.annotations == old(module)@.annotations,
            final(module)@.imports == if old(module)@.name == "sys.annotations"@
                || has_module_import(old(module)@.imports, "sys.annotations"@) {
                old(module)@.imports
            } else {
                old(module)@.imports.push(ImportV::ModuleName("sys.annotations"@))
            },
    {
        if module.name == "sys.annotations".to_string() {
            return;
        }
        let ghost old_imports = module@.imports;
        let mut i: usize = 0;
        while i < module.imports.len()
            invariant
                i <= module.imports@.len(),
                old_imports == module@.imports,
                forall|m: int| 0 <= m < i ==> module@.imports[m] != ImportV::ModuleName(
                    "sys.annotations"@,
                ),
            decreases module.imports@.len() - i,
        {
            match &module.imports[i] {
                Import::ModuleName(mn) => {
                    proof {
                        assert(module@.imports[i as int] == module.imports@[i as int]@);
                        assert(module.imports@[i as int]@ == ImportV::ModuleName(mn@));
                    }
                    if *mn == "sys.annotations".to_string() {
                        proof {
                            assert(mn@ == "sys.annotations"@);
                            assert(module@.imports[i as int] == ImportV::ModuleName(
                                "sys.annotations"@,
                            ));
                        }
                        return;
                    }
                },
                Import::ScopedName(_) => {
                    proof {
                        assert(module@.imports[i as int] == module.imports@[i as int]@);
                    }
                },
            }
            proof {
                assert(module@.imports[i as int] != ImportV::ModuleName("sys.annotations"@));
            }
            i = i + 1;
        }
        let ghost before = module@;
        module.imports.push(Import::ModuleName("sys.annotations".to_string()));
        proof {
            assert(module@.imports =~= before.imports.push(ImportV::ModuleName(
                "sys.annotations"@,
            )));
            assert(decls_view(module.decls@) == before.decls);
        }
    }

    /// Builds the expanded-imports table of a module against the
    /// resolved modules: entries in clause order, later clauses winning
    /// on short-name collision.
    pub fn get_expanded_imports(&self, module: &Module0) -> (r: Vec<(Ident, ScopedName)>)
        ensures
            r@.map_values(|p: (Ident, ScopedName)| (p.0@, p.1@)) == expanded_pairs(
                self.map_of(),
                module@.imports,
            ),
    {
        let ghost mods = self.map_of();
        let mut r: Vec<(Ident, ScopedName)> = Vec::new();
        let mut i: usize = 0;
        while i < module.imports.len()
            invariant
                i <= module.imports@.len(),
                mods == self.map_of(),
                r@.map_values(|p: (Ident, ScopedName)| (p.0@, p.1@)) =~= expanded_pairs(
                    mods,
                    module@.imports.take(i as int),
                ),
            decreases module.imports@.len() - i,
        {
            let ghost done = r@.map_values(|p: (Ident, ScopedName)| (p.0@, p.1@));
            match &module.imports[i] {
                Import::ScopedName(sn) => {
                    r.push((sn.name.clone(), sn.clone()));
                    proof {
                        assert(r@.map_values(|p: (Ident, ScopedName)| (p.0@, p.1@)) =~= done
                            + import_contribution(mods, module@.imports[i as int]));
                    }
                },
                Import::ModuleName(mn) => {
                    match modules_lookup(&self.modules, mn) {
                        Some(m) => {
                            let ghost contribution = decl_import_pairs(mn@, m@.decls);
                            let mut j: usize = 0;
                            while j < m.decls.len()
                                invariant
                                    j <= m.decls@.len(),
                                    contribution == decl_import_pairs(mn@, m@.decls),
                                    m@.decls.len() == m.decls@.len(),
                                    forall|q: int| 0 <= q < m@.decls.len() ==> (
                                    #[trigger] m@.decls[q]).name == decls_view(m.decls@)[q].name,
                                    r@.map_values(|p: (Ident, ScopedName)| (p.0@, p.1@)) =~= done
                                        + contribution.take(j as int),
                                decreases m.decls@.len() - j,
                            {
                                let ghost sofar = r@.map_values(
                                    |p: (Ident, ScopedName)| (p.0@, p.1@),
                                );
                                r.push(
                                    (
                                        m.decls[j].name.clone(),
                                        ScopedName {
                                            module_name: mn.clone(),
                                            name: m.decls[j].name.clone(),
                                        },
                                    ),
                                );
                                proof {
                                    assert(contribution[j as int] == (
                                        m@.decls[j as int].name,
                                        ScopedNameV {
                                            module_name: mn@,
                                            name: m@.decls[j as int].name,
                                        },
                                    ));
                                    assert(r@.map_values(|p: (Ident, ScopedName)| (p.0@, p.1@))
                                        =~= sofar.push(contribution[j as int]));
                                    assert(contribution.take(j + 1) =~= contribution.take(
                                        j as int,
                                    ).push(contribution[j as int]));
                                    assert(sofar.push(contribution[j as int]) =~= done
                                        + contribution.take(j + 1));
                                }
                                j = j + 1;
                            }
                            proof {
                                assert(contribution.take(contribution.len() as int)
                                    =~= contribution);
                                assert(import_contribution(mods, module@.imports[i as int])
                                    == contribution);
                            }
                        },
                        None => {
                            proof {
                                assert(import_contribution(mods, module@.imports[i as int])
                                    =~= Seq::<(Seq<char>, ScopedNameV)>::empty());
                                assert(done + import_contribution(
                                    mods,
                                    module@.imports[i as int],
                                ) =~= done);
                            }
                        },
                    }
                },
            }
            proof {
                assert(module@.imports.take(i + 1).drop_last() =~= module@.imports.take(i as int));
                assert(module@.imports.take(i + 1).last() == module@.imports[i as int]);
            }
            i = i + 1;
        }
        proof {
            assert(module@.imports.take(module@.imports.len() as int) =~= module@.imports);
        }
        r
    }

    /// Ensures the named module and everything it transitively
    /// references are resolved and present.  Depth-first over the
    /// reference graph with an explicit stack: a module is entered,
    /// its references are entered first, and it is finished (resolved
    /// and published) only after them; a module re-entered while still
    /// in progress is a cycle.  Modules resolved before a failure
    /// stay; the map never shrinks, never changes a published module,
    /// and stays closed under imports.  A loader answer that breaks the
    /// post-parse guarantees (a repeated declaration or field name) is
    /// surfaced as a load failure, as a parse failure would be.
    pub fn add_module(&mut self, module_name: &ModuleName) -> (r: Result<(), ResolveError>)
        ensures
            old(self).map_of().submap_of(final(self).map_of()),
            modules_closed(old(self).map_of()) ==> modules_closed(final(self).map_of()),
            r is Ok ==> final(self).map_of().contains_key(module_name@),
            old(self).map_of().contains_key(module_name@) ==> r is Ok && final(self).map_of()
                == old(self).map_of(),
            r matches Err(ResolveError::CircularModules(n))
                ==> !final(self).map_of().contains_key(n@),
            map_valid(old(self).map_of()) ==> map_valid(final(self).map_of()),
    {
        let mut stack: Vec<WorkItem> = Vec::new();
        stack.push(WorkItem::Enter(module_name.clone()));
        let mut in_progress: Vec<ModuleName> = Vec::new();
        let mut budget: usize = usize::MAX;

        proof {
            assert(stack@.len() == 1);
            assert(stack@[0] matches WorkItem::Enter(nn) && nn@ == module_name@);
        }
        while stack.len() > 0
            invariant
                old(self).map_of().submap_of(self.map_of()),
                modules_closed(old(self).map_of()) ==> modules_closed(self.map_of()),
                map_valid(old(self).map_of()) ==> map_valid(self.map_of()),
                stack_ok(stack@, self.map_of()),
                forall|t: int| 0 <= t < stack@.len() ==> finish_imports_ok(#[trigger] stack@[t]),
                old(self).map_of().contains_key(module_name@) ==> self.map_of() == old(
                    self,
                ).map_of(),
                old(self).map_of().contains_key(module_name@) ==> budget as int >= usize::MAX
                    as int - 1 + stack@.len() as int,
                old(self).map_of().contains_key(module_name@) ==> (forall|t: int|
                    0 <= t < stack@.len() ==> ((#[trigger] stack@[t]) matches WorkItem::Enter(nn)
                        && nn@ == module_name@)),
            decreases budget,
        {
            if budget == 0 {
                return Err(ResolveError::LoadFailed);
            }
            budget = budget - 1;
            let ghost old_stack = stack@;
            let item = stack.pop().unwrap();
            proof {
                assert(item == old_stack.last());
                assert(stack@ =~= old_stack.drop_last());
            }
            match item {
                WorkItem::Enter(name) => {
                    let resolved = match modules_lookup(&self.modules, &name) {
                        Some(_) => true,
                        None => false,
                    };
                    if resolved {
                        proof {
                            assert(task_names(old_stack.last(), name@));
                            lemma_stack_ok_after_pop(
                                old_stack,
                                self.map_of(),
                                self.map_of(),
                                name@,
                            );
                            assert forall|t: int| 0 <= t < stack@.len() implies
                                finish_imports_ok(#[trigger] stack@[t]) by {
                                assert(stack@[t] == old_stack[t]);
                            }
                        }
                    } else if contains_name(&in_progress, &name) {
                        return Err(ResolveError::CircularModules(name));
                    } else {
                        let raw = match self.loader.load(&name) {
                            Err(_) => {
                                return Err(ResolveError::LoadFailed);
                            },
                            Ok(None) => {
                                return Err(ResolveError::ModuleNotFound);
                            },
                            Ok(Some(raw)) => raw,
                        };
                        if !check_module_wf(&raw.0) {
                            return Err(ResolveError::LoadFailed);
                        }
                        let ghost raw0v = raw.0@;
                        let ghost rawe = crate::ast::eas_view(raw.1@);
                        let mut module0 = match apply_explicit_annotations(raw) {
                            Ok(m0) => m0,
                            Err(_) => {
                                return Err(ResolveError::LoadFailed);
                            },
                        };
                        proof {
                            crate::annotations::lemma_bind_all_imports(raw0v, rawe);
                            assert(imports_wf(module0@.imports));
                        }
                        in_progress.push(name.clone());
                        self.add_default_imports(&mut module0);
                        proof {
                            reveal_strlit("sys.annotations");
                            assert("sys.annotations"@.len() == 15);
                            assert(imports_wf(module0@.imports)) by {
                                assert forall|q: int|
                                    0 <= q < module0@.imports.len() implies import_module_name(
                                    #[trigger] module0@.imports[q],
                                ).len() > 0 by {
                                    if q < module0@.imports.len() - 1 {
                                    }
                                }
                            }
                        }
                        let mut refs = find_module_refs(&module0);
                        let ghost name_snap = name@;
                        let ghost m0v = module0@;
                        let ghost p = stack@.len() as int;
                        stack.push(WorkItem::Finish(name, module0));
                        let ghost base = stack@;
                        let ghost refs0 = refs@;
                        proof {
                            assert(base[p] matches WorkItem::Finish(nm, b0) && nm@ == name_snap
                                && b0@ == m0v);
                            assert(stack@.take(base.len() as int) =~= base);
                            assert(task_names(old_stack.last(), name_snap));
                        }
                        proof {
                            assert forall|t: int| 0 <= t < stack@.len() implies
                                finish_imports_ok(#[trigger] stack@[t]) by {
                                if t < p {
                                    assert(stack@[t] == old_stack.drop_last()[t]);
                                    assert(old_stack.drop_last()[t] == old_stack[t]);
                                } else {
                                    assert(stack@[t] == base[p]);
                                }
                            }
                        }
                        while refs.len() > 0
                            invariant
                                old(self).map_of().submap_of(self.map_of()),
                                modules_closed(old(self).map_of()) ==> modules_closed(
                                    self.map_of(),
                                ),
                                map_valid(old(self).map_of()) ==> map_valid(self.map_of()),
                                forall|t: int| 0 <= t < stack@.len() ==> finish_imports_ok(
                                    #[trigger] stack@[t],
                                ),
                                0 <= p < base.len() <= stack@.len(),
                                stack@.take(base.len() as int) == base,
                                base[p] matches WorkItem::Finish(nm, b0) && nm@ == name_snap
                                    && b0@ == m0v,
                                forall|t: int| p < t < stack@.len() ==> (#[trigger] stack@[t])
                                    matches WorkItem::Enter(_),
                                stack_ok(old_stack, self.map_of()),
                                task_names(old_stack.last(), name_snap),
                                old_stack.len() == p + 1,
                                forall|r: Seq<char>| names_set(refs0).contains(r)
                                    ==> names_set(refs@).contains(r) || pending_after(
                                    stack@,
                                    p,
                                    r,
                                ),
                                forall|i: int| 0 <= i < m0v.imports.len() ==> names_set(
                                    refs0,
                                ).contains(import_module_name(#[trigger] m0v.imports[i])),
                            decreases refs@.len(),
                        {
                            let ghost pre_stack = stack@;
                            let ghost pre_refs = refs@;
                            let next = refs.pop().unwrap();
                            stack.push(WorkItem::Enter(next));
                            proof {
                                assert(next == pre_refs.last());
                                assert(refs@ =~= pre_refs.drop_last());
                                assert(stack@.take(base.len() as int) =~= base);
                                assert(stack@[stack@.len() - 1] matches WorkItem::Enter(_));
                                assert(task_names(stack@[stack@.len() - 1], next@));
                                assert forall|r: Seq<char>| names_set(refs0).contains(
                                    r,
                                ) implies names_set(refs@).contains(r) || pending_after(
                                    stack@,
                                    p,
                                    r,
                                ) by {
                                    if names_set(pre_refs).contains(r) {
                                        let w = choose|w: int|
                                            0 <= w < pre_refs.len() && pre_refs[w]@ == r;
                                        if w < pre_refs.len() - 1 {
                                            assert(refs@[w]@ == r);
                                        } else {
                                            assert(next@ == r);
                                            assert(pending_after(stack@, p, r));
                                        }
                                    } else if pending_after(pre_stack, p, r) {
                                        let t2 = choose|t2: int|
                                            p < t2 < pre_stack.len() && task_names(
                                                #[trigger] pre_stack[t2],
                                                r,
                                            );
                                        assert(stack@[t2] == pre_stack[t2]);
                                        assert(pending_after(stack@, p, r));
                                    }
                                }
                            }
                        }
                        proof {
                            // The popped entry, if it named anything a deeper
                            // finish item waits for, is replaced by the new
                            // finish item at the same name.
                            assert(names_set(refs@) =~= Set::<Seq<char>>::empty()) by {
                                assert(refs@.len() == 0);
                                assert forall|r: Seq<char>|
                                    !names_set(refs@).contains(r) by {
                                    if names_set(refs@).contains(r) {
                                        let w = choose|w: int|
                                            0 <= w < refs@.len() && refs@[w]@ == r;
                                    }
                                }
                            }
                            assert forall|w: int| 0 <= w < p implies stack@[w]
                                == old_stack[w] by {
                                assert(stack@.take(base.len() as int)[w] == stack@[w]);
                                assert(base[w] == old_stack.drop_last()[w]);
                                assert(old_stack.drop_last()[w] == old_stack[w]);
                            }
                            assert(stack@[p] == base[p]);
                            assert(task_names(stack@[p], name_snap));
                            assert forall|t: int| 0 <= t < stack@.len() implies #[trigger]
                                finish_ok(stack@, t, self.map_of()) by {
                                if t < p {
                                    assert(finish_ok(old_stack, t, self.map_of()));
                                    lemma_finish_ok_extend(
                                        old_stack,
                                        stack@,
                                        t,
                                        p,
                                        name_snap,
                                        self.map_of(),
                                    );
                                } else if t == p {
                                    assert(stack@[p] == base[p]);
                                    match stack@[p] {
                                        WorkItem::Finish(_, b0) => {
                                            assert forall|i: int|
                                                0 <= i < b0@.imports.len() implies
                                                self.map_of().contains_key(import_module_name(
                                                    #[trigger] b0@.imports[i],
                                                )) || pending_after(
                                                    stack@,
                                                    p,
                                                    import_module_name(b0@.imports[i]),
                                                ) by {
                                                let r = import_module_name(b0@.imports[i]);
                                                assert(names_set(refs0).contains(r));
                                            }
                                        },
                                        WorkItem::Enter(_) => {},
                                    }
                                }
                            }
                        }
                    }
                },
                WorkItem::Finish(name, module0) => {
                    let ghost m0v = module0@;
                    let ghost name_snap = name@;
                    let expanded = self.get_expanded_imports(&module0);
                    let local_names = decl_names(&module0.decls);
                    let ghost mut envg = ResolveEnvV {
                        modules: Map::empty(),
                        local_names: Set::empty(),
                        expanded_imports: Map::empty(),
                        type_params: Set::empty(),
                    };
                    let module1 = {
                        let ctx = ResolveCtx {
                            modules: &self.modules,
                            local_names: &local_names,
                            expanded_imports: &expanded,
                            type_params: Vec::new(),
                        };
                        proof {
                            envg = ctx.env();
                        }
                        match resolve_module(&ctx, module0) {
                            Ok(m1) => m1,
                            Err(e) => {
                                proof {
                                    lemma_module_error_kind(ctx.env(), m0v, e@);
                                }
                                return Err(e);
                            },
                        }
                    };
                    let fresh = match modules_lookup(&self.modules, &name) {
                        Some(_) => false,
                        None => true,
                    };
                    if fresh {
                        let ghost pre_map = self.map_of();
                        let ghost pre_pairs = self.modules@.map_values(
                            |p: (ModuleName, Module1)| (p.0@, p.1@),
                        );
                        let mut i: usize = 0;
                        while i < in_progress.len()
                            invariant
                                i <= in_progress@.len(),
                            decreases in_progress@.len() - i,
                        {
                            if in_progress[i] == name {
                                in_progress.remove(i);
                                break;
                            }
                            i = i + 1;
                        }
                        self.modules.push((name, module1));
                        proof {
                            let new_pairs = self.modules@.map_values(
                                |p: (ModuleName, Module1)| (p.0@, p.1@),
                            );
                            assert(new_pairs.drop_last() =~= pre_pairs);
                            assert(new_pairs.last() == (name_snap, module1@));
                            assert(self.map_of() == pre_map.insert(name_snap, module1@));
                            assert(!pre_map.contains_key(name_snap));
                            assert(pre_map.submap_of(self.map_of()));
                            assert forall|kk: Seq<char>|
                                old(self).map_of().dom().contains(kk) implies
                                self.map_of().dom().contains(kk) && old(self).map_of()[kk]
                                    == self.map_of()[kk] by {
                                assert(pre_map.dom().contains(kk));
                                assert(pre_map[kk] == old(self).map_of()[kk]);
                            }
                            assert(old(self).map_of().submap_of(self.map_of()));
                            // The new module's imports were all resolved before
                            // it was finished: nothing was staged above it.
                            assert(finish_ok(old_stack, old_stack.len() - 1, pre_map));
                            assert(module1@.imports == m0v.imports);
                            if modules_closed(old(self).map_of()) {
                                assert(modules_closed(pre_map));
                                assert forall|k: Seq<char>, j: int|
                                    #![trigger self.map_of()[k].imports[j]]
                                    self.map_of().contains_key(k) && 0 <= j
                                        < self.map_of()[k].imports.len() implies
                                    self.map_of().contains_key(import_module_name(
                                        self.map_of()[k].imports[j],
                                    )) by {
                                    if k == name_snap {
                                        let r = import_module_name(m0v.imports[j]);
                                        assert(!pending_after(
                                            old_stack,
                                            old_stack.len() - 1,
                                            r,
                                        ));
                                        assert(pre_map.contains_key(r));
                                    } else {
                                        assert(pre_map[k] == self.map_of()[k]);
                                        assert(pre_map.contains_key(import_module_name(
                                            pre_map[k].imports[j],
                                        )));
                                    }
                                }
                            }
                            assert(task_names(old_stack.last(), name_snap));
                            assert forall|kk: Seq<char>| pre_map.contains_key(kk) implies
                                self.map_of().contains_key(kk) by {}
                            lemma_stack_ok_after_pop(
                                old_stack,
                                pre_map,
                                self.map_of(),
                                name_snap,
                            );
                            assert forall|t: int| 0 <= t < stack@.len() implies
                                finish_imports_ok(#[trigger] stack@[t]) by {
                                assert(stack@[t] == old_stack[t]);
                            }
                            if map_valid(old(self).map_of()) {
                                assert(map_valid(pre_map));
                                let allow = scoped_imports_of(m0v.imports);
                                assert(imports_wf(m0v.imports)) by {
                                    assert(finish_imports_ok(old_stack[old_stack.len() - 1]));
                                }
                                lemma_expanded_pairs_sound(pre_map, m0v.imports);
                                assert(envg.modules == pre_map);
                                assert(envg.expanded_imports == pairs_map(expanded_pairs(
                                    pre_map,
                                    m0v.imports,
                                ))) by {
                                    assert(expanded@.map_values(
                                        |p: (Ident, ScopedName)| (p.0@, p.1@),
                                    ) == expanded_pairs(pre_map, m0v.imports));
                                }
                                assert(expanded_sound(envg.modules, allow, envg.expanded_imports));
                                assert(module_resolves_to(envg, m0v, module1@));
                                lemma_resolved_module_valid(envg, allow, m0v, module1@);
                                assert(module1_valid(pre_map, allow, module1@));
                                assert forall|kk: Seq<char>|
                                    #[trigger] self.map_of().contains_key(kk) implies
                                    module1_valid(
                                        self.map_of(),
                                        scoped_imports_of(self.map_of()[kk].imports),
                                        self.map_of()[kk],
                                    ) && imports_wf(self.map_of()[kk].imports) by {
                                    if kk == name_snap {
                                        assert(self.map_of()[kk] == module1@);
                                        assert(module1@.imports == m0v.imports);
                                        lemma_module_valid_monotone(
                                            pre_map,
                                            self.map_of(),
                                            allow,
                                            module1@,
                                        );
                                    } else {
                                        assert(pre_map.contains_key(kk));
                                        assert(self.map_of()[kk] == pre_map[kk]);
                                        assert(module1_valid(
                                            pre_map,
                                            scoped_imports_of(pre_map[kk].imports),
                                            pre_map[kk],
                                        ));
                                        lemma_module_valid_monotone(
                                            pre_map,
                                            self.map_of(),
                                            scoped_imports_of(pre_map[kk].imports),
                                            pre_map[kk],
                                        );
                                    }
                                }
                                assert(map_valid(self.map_of()));
                            }
                        }
                    } else {
                        proof {
                            assert(task_names(old_stack.last(), name_snap));
                            lemma_stack_ok_after_pop(
                                old_stack,
                                self.map_of(),
                                self.map_of(),
                                name_snap,
                            );
                            assert forall|t: int| 0 <= t < stack@.len() implies
                                finish_imports_ok(#[trigger] stack@[t]) by {
                                assert(stack@[t] == old_stack[t]);
                            }
                        }
                    }
                },
            }
        }
        match modules_lookup(&self.modules, module_name) {
            Some(_) => Ok(()),
            None => Err(ResolveError::ModuleNotFound),
        }
    }

}

/// After popping a work item whose name is now resolved, the remaining
/// finish items are still accounted for.
proof fn lemma_stack_ok_after_pop(
    old_stack: Seq<WorkItem>,
    pre_mods: Map<Seq<char>, ModuleV<TypeRefV>>,
    mods: Map<Seq<char>, ModuleV<TypeRefV>>,
    popped_name: Seq<char>,
)
    requires
        old_stack.len() > 0,
        forall|t: int| 0 <= t < old_stack.len() ==> #[trigger] finish_ok(old_stack, t, pre_mods),
        forall|k: Seq<char>| pre_mods.contains_key(k) ==> mods.contains_key(k),
        task_names(old_stack.last(), popped_name),
        mods.contains_key(popped_name),
    ensures
        stack_ok(old_stack.drop_last(), mods),
{
    let stack = old_stack.drop_last();
    assert forall|t: int| 0 <= t < stack.len() implies #[trigger] finish_ok(stack, t, mods) by {
        assert(stack[t] == old_stack[t]);
        assert(finish_ok(old_stack, t, pre_mods));
        match stack[t] {
            WorkItem::Finish(_, m0) => {
                assert forall|i: int| 0 <= i < m0@.imports.len() implies mods.contains_key(
                    import_module_name(#[trigger] m0@.imports[i]),
                ) || pending_after(stack, t, import_module_name(m0@.imports[i])) by {
                    let r = import_module_name(m0@.imports[i]);
                    if !mods.contains_key(r) {
                        assert(!pre_mods.contains_key(r));
                        assert(pending_after(old_stack, t, r));
                        let t2 = choose|t2: int|
                            t < t2 < old_stack.len() && task_names(#[trigger] old_stack[t2], r);
                        if t2 < old_stack.len() - 1 {
                            assert(stack[t2] == old_stack[t2]);
                            assert(pending_after(stack, t, r));
                        } else {
                            assert(r == popped_name);
                            assert(false);
                        }
                    }
                }
            },
            WorkItem::Enter(_) => {},
        }
    }
}

/// A finish item below a popped entry stays accounted for when the
/// entry is replaced by new items among which one names the same
/// module.
proof fn lemma_finish_ok_extend(
    old_stack: Seq<WorkItem>,
    new_stack: Seq<WorkItem>,
    t: int,
    p: int,
    popped_name: Seq<char>,
    mods: Map<Seq<char>, ModuleV<TypeRefV>>,
)
    requires
        old_stack.len() > 0,
        p == old_stack.len() - 1,
        0 <= t < p,
        new_stack.len() > p,
        forall|w: int| 0 <= w < p ==> new_stack[w] == old_stack[w],
        task_names(new_stack[p], popped_name),
        task_names(old_stack.last(), popped_name),
        finish_ok(old_stack, t, mods),
    ensures
        finish_ok(new_stack, t, mods),
{
    assert(new_stack[t] == old_stack[t]);
    match new_stack[t] {
        WorkItem::Finish(_, m0) => {
            assert forall|i: int| 0 <= i < m0@.imports.len() implies mods.contains_key(
                import_module_name(#[trigger] m0@.imports[i]),
            ) || pending_after(new_stack, t, import_module_name(m0@.imports[i])) by {
                let r = import_module_name(m0@.imports[i]);
                if !mods.contains_key(r) {
                    assert(pending_after(old_stack, t, r));
                    let t2 = choose|t2: int|
                        t < t2 < old_stack.len() && task_names(#[trigger] old_stack[t2], r);
                    if t2 < p {
                        assert(new_stack[t2] == old_stack[t2]);
                        assert(pending_after(new_stack, t, r));
                    } else {
                        assert(r == popped_name);
                        assert(task_names(new_stack[p], r));
                        assert(pending_after(new_stack, t, r));
                    }
                }
            }
        },
        WorkItem::Enter(_) => {},
    }
}

/// A scoped name that names a declaration of a resolved module.
pub open spec fn decl_exists(mods: Map<Seq<char>, ModuleV<TypeRefV>>, s: ScopedNameV) -> bool {
    mods.contains_key(s.module_name) && has_decl_named(mods[s.module_name].decls, s.name)
}

/// The scoped names a module imports one declaration under.
pub open spec fn scoped_imports_of(imports: Seq<ImportV>) -> Set<ScopedNameV> {
    Set::new(|s: ScopedNameV| exists|i: int| 0 <= i < imports.len() && imports[i]
        == ImportV::ScopedName(s))
}

/// A classified reference is valid: if it is a scoped name, either its
/// module name is non-empty and it names an existing declaration, or it
/// is one of the allowed names (the scoped-name imports, which the
/// decision procedure carries through unchecked).
pub open spec fn tr_valid(
    mods: Map<Seq<char>, ModuleV<TypeRefV>>,
    allow: Set<ScopedNameV>,
    tr: TypeRefV,
) -> bool {
    tr matches TypeRefV::ScopedName(s) ==> (s.module_name.len() > 0 && decl_exists(mods, s))
        || allow.contains(s)
}

/// Every reference in a resolved type expression is valid.
pub open spec fn te1_valid(
    mods: Map<Seq<char>, ModuleV<TypeRefV>>,
    allow: Set<ScopedNameV>,
    te: TypeExprV<TypeRefV>,
) -> bool
    decreases te,
{
    tr_valid(mods, allow, te.type_ref) && forall|i: int| 0 <= i < te.parameters.len()
        ==> te1_valid(mods, allow, #[trigger] te.parameters[i])
}

/// Every key of a resolved annotation table is a non-empty scoped name
/// naming an existing declaration.
pub open spec fn annos1_valid(
    mods: Map<Seq<char>, ModuleV<TypeRefV>>,
    allow: Set<ScopedNameV>,
    a: Map<ScopedNameV, JsonValue>,
) -> bool {
    forall|k: ScopedNameV| #[trigger] a.contains_key(k) ==> (k.module_name.len() > 0
        && decl_exists(mods, k)) || allow.contains(k)
}

/// Every reference and annotation key in a resolved field is valid.
pub open spec fn field1_valid(
    mods: Map<Seq<char>, ModuleV<TypeRefV>>,
    allow: Set<ScopedNameV>,
    f: FieldV<TypeRefV>,
) -> bool {
    te1_valid(mods, allow, f.type_expr) && annos1_valid(mods, allow, f.annotations)
}

/// Every reference in a resolved declaration body is valid.
pub open spec fn dtype1_valid(
    mods: Map<Seq<char>, ModuleV<TypeRefV>>,
    allow: Set<ScopedNameV>,
    dt: DeclTypeV<TypeRefV>,
) -> bool {
    match dt {
        DeclTypeV::Struct { fields, .. } => forall|i: int| 0 <= i < fields.len() ==> field1_valid(
            mods,
            allow,
            #[trigger] fields[i],
        ),
        DeclTypeV::Union { fields, .. } => forall|i: int| 0 <= i < fields.len() ==> field1_valid(
            mods,
            allow,
            #[trigger] fields[i],
        ),
        DeclTypeV::Type { type_expr, .. } => te1_valid(mods, allow, type_expr),
        DeclTypeV::Newtype { type_expr, .. } => te1_valid(mods, allow, type_expr),
    }
}

/// Every reference and annotation key in a resolved declaration is valid.
pub open spec fn decl1_valid(
    mods: Map<Seq<char>, ModuleV<TypeRefV>>,
    allow: Set<ScopedNameV>,
    d: DeclV<TypeRefV>,
) -> bool {
    dtype1_valid(mods, allow, d.dtype) && annos1_valid(mods, allow, d.annotations)
}

/// Every reference and annotation key occurring anywhere in a resolved
/// module is valid.
pub open spec fn module1_valid(
    mods: Map<Seq<char>, ModuleV<TypeRefV>>,
    allow: Set<ScopedNameV>,
    m: ModuleV<TypeRefV>,
) -> bool {
    (forall|i: int| 0 <= i < m.decls.len() ==> decl1_valid(mods, allow, #[trigger] m.decls[i]))
        && annos1_valid(mods, allow, m.annotations)
}

/// Every value of an expanded-imports table is a non-empty scoped name
/// naming an existing declaration.
pub open spec fn expanded_sound(
    mods: Map<Seq<char>, ModuleV<TypeRefV>>,
    allow: Set<ScopedNameV>,
    ei: Map<Seq<char>, ScopedNameV>,
) -> bool {
    forall|k: Seq<char>| #[trigger] ei.contains_key(k) ==> (ei[k].module_name.len() > 0
        && decl_exists(mods, ei[k])) || allow.contains(ei[k])
}

/// A successfully classified reference is valid, provided the
/// expanded-imports table is sound.
pub proof fn lemma_tr_resolution_valid(
    env: ResolveEnvV,
    allow: Set<ScopedNameV>,
    sn: ScopedNameV,
    tr: TypeRefV,
)
    requires
        resolve_type_ref_spec(env, sn) == Ok::<TypeRefV, ResolveErrorV>(tr),
        expanded_sound(env.modules, allow, env.expanded_imports),
    ensures
        tr_valid(env.modules, allow, tr),
{
    if sn.module_name.len() == 0 {
        if !env.type_params.contains(sn.name) && prim_from_ident(sn.name) is None
            && !env.local_names.contains(sn.name) && env.expanded_imports.contains_key(sn.name) {
            assert(tr == TypeRefV::ScopedName(env.expanded_imports[sn.name]));
        }
    }
}

/// A successfully resolved type expression holds only valid references.
pub proof fn lemma_te_resolution_valid(
    env: ResolveEnvV,
    allow: Set<ScopedNameV>,
    te0: TypeExprV<ScopedNameV>,
    te1: TypeExprV<TypeRefV>,
)
    requires
        resolve_te_spec(env, te0) == Ok::<TypeExprV<TypeRefV>, ResolveErrorV>(te1),
        expanded_sound(env.modules, allow, env.expanded_imports),
    ensures
        te1_valid(env.modules, allow, te1),
    decreases te0, 1int,
{
    let tr = resolve_type_ref_spec(env, te0.type_ref)->Ok_0;
    lemma_tr_resolution_valid(env, allow, te0.type_ref, tr);
    let ps = resolve_te_list_spec(env, te0.parameters)->Ok_0;
    lemma_te_list_resolution_valid(env, allow, te0.parameters, ps);
    assert(te1.type_ref == tr);
    assert(te1.parameters == ps);
}

/// A successfully resolved list of type expressions holds only valid
/// references.
pub proof fn lemma_te_list_resolution_valid(
    env: ResolveEnvV,
    allow: Set<ScopedNameV>,
    tes0: Seq<TypeExprV<ScopedNameV>>,
    tes1: Seq<TypeExprV<TypeRefV>>,
)
    requires
        resolve_te_list_spec(env, tes0) == Ok::<Seq<TypeExprV<TypeRefV>>, ResolveErrorV>(tes1),
        expanded_sound(env.modules, allow, env.expanded_imports),
    ensures
        tes1.len() == tes0.len(),
        forall|i: int| 0 <= i < tes1.len() ==> te1_valid(env.modules, allow, #[trigger] tes1[i]),
    decreases tes0, 0int,
{
    if tes0.len() == 0 {
    } else {
        let h = resolve_te_spec(env, tes0[0])->Ok_0;
        let t = resolve_te_list_spec(env, tes0.drop_first())->Ok_0;
        lemma_te_resolution_valid(env, allow, tes0[0], h);
        lemma_te_list_resolution_valid(env, allow, tes0.drop_first(), t);
        assert(tes1 == seq![h] + t);
        assert forall|i: int| 0 <= i < tes1.len() implies te1_valid(
            env.modules,
            allow,
            #[trigger] tes1[i],
        ) by {
            if i == 0 {
                assert(tes1[0] == h);
            } else {
                assert(tes1[i] == t[i - 1]);
            }
        }
    }
}

/// A resolved annotation table holds only valid keys.
pub proof fn lemma_annos_resolution_valid(
    env: ResolveEnvV,
    allow: Set<ScopedNameV>,
    a0: Map<ScopedNameV, JsonValue>,
    a1: Map<ScopedNameV, JsonValue>,
)
    requires
        annos_resolved_rel(env, a0, a1),
        expanded_sound(env.modules, allow, env.expanded_imports),
    ensures
        annos1_valid(env.modules, allow, a1),
{
    assert forall|k2: ScopedNameV| #[trigger] a1.contains_key(k2) implies (k2.module_name.len()
        > 0 && decl_exists(env.modules, k2)) || allow.contains(k2) by {
        let k = choose|k: ScopedNameV|
            a0.contains_key(k) && #[trigger] resolve_anno_key_spec(env, k) == Ok::<
                ScopedNameV,
                ResolveErrorV,
            >(k2) && a1[k2] == a0[k];
        let env0 = env.without_type_params();
        let tr = resolve_type_ref_spec(env0, k)->Ok_0;
        assert(expanded_sound(env0.modules, allow, env0.expanded_imports));
        lemma_tr_resolution_valid(env0, allow, k, tr);
        assert(tr == TypeRefV::ScopedName(k2));
    }
}

/// Resolution publishes only valid modules: in a module that resolved
/// successfully, every type reference that is a scoped name has a
/// non-empty module name and names a declaration of a resolved module,
/// and so does every annotation key.  This needs the expanded-imports
/// table to be sound: an import of a single declaration by scoped name
/// is not checked against the imported module by the decision
/// procedure, so a module importing a non-existent declaration by name
/// and using it is the one input this does not cover.
pub proof fn lemma_resolved_module_valid(
    env: ResolveEnvV,
    allow: Set<ScopedNameV>,
    m0: ModuleV<ScopedNameV>,
    m1: ModuleV<TypeRefV>,
)
    requires
        module_resolves_to(env, m0, m1),
        expanded_sound(env.modules, allow, env.expanded_imports),
    ensures
        module1_valid(env.modules, allow, m1),
{
    lemma_annos_resolution_valid(env, allow, m0.annotations, m1.annotations);
    assert forall|i: int| 0 <= i < m1.decls.len() implies decl1_valid(
        env.modules,
        allow,
        #[trigger] m1.decls[i],
    ) by {
        assert(decl_resolves_to(env, m0.decls[i], m1.decls[i]));
        lemma_resolved_decl_valid(env, allow, m0.decls[i], m1.decls[i]);
    }
}

/// A declaration that resolved successfully is valid.
pub proof fn lemma_resolved_decl_valid(
    env: ResolveEnvV,
    allow: Set<ScopedNameV>,
    d0: DeclV<ScopedNameV>,
    d1: DeclV<TypeRefV>,
)
    requires
        decl_resolves_to(env, d0, d1),
        expanded_sound(env.modules, allow, env.expanded_imports),
    ensures
        decl1_valid(env.modules, allow, d1),
{
    lemma_annos_resolution_valid(env, allow, d0.annotations, d1.annotations);
    match (d0.dtype, d1.dtype) {
        (
            DeclTypeV::Struct { type_params: tp0, fields: f0 },
            DeclTypeV::Struct { fields: f1, .. },
        ) => {
            lemma_resolved_fields_valid(scoped_env(env, tp0), allow, f0, f1);
        },
        (
            DeclTypeV::Union { type_params: tp0, fields: f0 },
            DeclTypeV::Union { fields: f1, .. },
        ) => {
            lemma_resolved_fields_valid(scoped_env(env, tp0), allow, f0, f1);
        },
        (
            DeclTypeV::Type { type_params: tp0, type_expr: t0 },
            DeclTypeV::Type { type_expr: t1, .. },
        ) => {
            lemma_te_resolution_valid(scoped_env(env, tp0), allow, t0, t1);
        },
        (
            DeclTypeV::Newtype { type_params: tp0, type_expr: t0, .. },
            DeclTypeV::Newtype { type_expr: t1, .. },
        ) => {
            lemma_te_resolution_valid(scoped_env(env, tp0), allow, t0, t1);
        },
        _ => {},
    }
}

/// Fields that resolved successfully are valid.
pub proof fn lemma_resolved_fields_valid(
    env: ResolveEnvV,
    allow: Set<ScopedNameV>,
    fs0: Seq<FieldV<ScopedNameV>>,
    fs1: Seq<FieldV<TypeRefV>>,
)
    requires
        fields_resolve_to(env, fs0, fs1),
        expanded_sound(env.modules, allow, env.expanded_imports),
    ensures
        forall|i: int| 0 <= i < fs1.len() ==> field1_valid(env.modules, allow, #[trigger] fs1[i]),
{
    assert forall|i: int| 0 <= i < fs1.len() implies field1_valid(
        env.modules,
        allow,
        #[trigger] fs1[i],
    ) by {
        assert(field_resolves_to(env, fs0[i], fs1[i]));
        lemma_te_resolution_valid(env, allow, fs0[i].type_expr, fs1[i].type_expr);
        lemma_annos_resolution_valid(env, allow, fs0[i].annotations, fs1[i].annotations);
    }
}

/// The expanded-imports table built from sound clauses is sound: every
/// short name maps either to a declaration of a resolved module (from a
/// whole-module import) or to a scoped-name import, which the
/// hypothesis holds to a declaration too.
pub proof fn lemma_expanded_pairs_sound(
    mods: Map<Seq<char>, ModuleV<TypeRefV>>,
    imports: Seq<ImportV>,
)
    requires
        forall|i: int| 0 <= i < imports.len() ==> import_module_name(
            #[trigger] imports[i],
        ).len() > 0,
    ensures
        expanded_sound(
            mods,
            scoped_imports_of(imports),
            pairs_map(expanded_pairs(mods, imports)),
        ),
    decreases imports.len(),
{
    lemma_expanded_pairs_entries(mods, imports);
    let pairs = expanded_pairs(mods, imports);
    let allow = scoped_imports_of(imports);
    assert forall|k: Seq<char>| #[trigger] pairs_map(pairs).contains_key(k) implies (pairs_map(
        pairs,
    )[k].module_name.len() > 0 && decl_exists(mods, pairs_map(pairs)[k])) || allow.contains(
        pairs_map(pairs)[k],
    ) by {
        lemma_pairs_map_get_last(pairs, k);
    }
}

/// Every entry of the expanded-imports pair list is sound: a value
/// from a whole-module import names an existing declaration; a value
/// from a scoped-name import is that import.
pub proof fn lemma_expanded_pairs_entries(
    mods: Map<Seq<char>, ModuleV<TypeRefV>>,
    imports: Seq<ImportV>,
)
    requires
        forall|i: int| 0 <= i < imports.len() ==> import_module_name(
            #[trigger] imports[i],
        ).len() > 0,
    ensures
        forall|j: int| 0 <= j < expanded_pairs(mods, imports).len() ==> ((
        #[trigger] expanded_pairs(mods, imports)[j]).1.module_name.len() > 0 && decl_exists(
            mods,
            expanded_pairs(mods, imports)[j].1,
        )) || scoped_imports_of(imports).contains(expanded_pairs(mods, imports)[j].1),
    decreases imports.len(),
{
    if imports.len() > 0 {
        let front = imports.drop_last();
        assert forall|i: int| 0 <= i < front.len() implies import_module_name(
            #[trigger] front[i],
        ).len() > 0 by {
            assert(front[i] == imports[i]);
        }
        lemma_expanded_pairs_entries(mods, front);
        let prior = expanded_pairs(mods, front);
        let contribution = import_contribution(mods, imports.last());
        let pairs = expanded_pairs(mods, imports);
        assert(pairs == prior + contribution);
        assert forall|j: int| 0 <= j < pairs.len() implies ((
        #[trigger] pairs[j]).1.module_name.len() > 0 && decl_exists(mods, pairs[j].1))
            || scoped_imports_of(imports).contains(pairs[j].1) by {
            if j < prior.len() {
                assert(pairs[j] == prior[j]);
                if scoped_imports_of(front).contains(prior[j].1) {
                    let w = choose|w: int|
                        0 <= w < front.len() && front[w] == ImportV::ScopedName(prior[j].1);
                    assert(imports[w] == ImportV::ScopedName(prior[j].1));
                    assert(scoped_imports_of(imports).contains(pairs[j].1));
                }
            } else {
                assert(pairs[j] == contribution[j - prior.len()]);
                match imports.last() {
                    ImportV::ScopedName(sn) => {
                        assert(imports[imports.len() - 1] == ImportV::ScopedName(sn));
                        assert(contribution[0] == (sn.name, sn));
                        assert(scoped_imports_of(imports).contains(sn));
                    },
                    ImportV::ModuleName(mn) => {
                        assert(mods.contains_key(mn));
                        let q = j - prior.len();
                        assert(contribution[q] == (
                            mods[mn].decls[q].name,
                            ScopedNameV { module_name: mn, name: mods[mn].decls[q].name },
                        ));
                        assert(import_module_name(imports[imports.len() - 1]) == mn);
                        assert(has_decl_named(mods[mn].decls, mods[mn].decls[q].name));
                    },
                }
            }
        }
    }
}

/// Validity survives growth of the resolved map: new modules under new
/// names change no existing lookup.
pub proof fn lemma_te_valid_monotone(
    mods: Map<Seq<char>, ModuleV<TypeRefV>>,
    mods2: Map<Seq<char>, ModuleV<TypeRefV>>,
    allow: Set<ScopedNameV>,
    te: TypeExprV<TypeRefV>,
)
    requires
        te1_valid(mods, allow, te),
        forall|k: Seq<char>| #[trigger] mods.contains_key(k) ==> mods2.contains_key(k)
            && mods2[k] == mods[k],
    ensures
        te1_valid(mods2, allow, te),
    decreases te,
{
    assert forall|i: int| 0 <= i < te.parameters.len() implies te1_valid(
        mods2,
        allow,
        #[trigger] te.parameters[i],
    ) by {
        lemma_te_valid_monotone(mods, mods2, allow, te.parameters[i]);
    }
}

/// Validity of a whole module survives growth of the resolved map.
pub proof fn lemma_module_valid_monotone(
    mods: Map<Seq<char>, ModuleV<TypeRefV>>,
    mods2: Map<Seq<char>, ModuleV<TypeRefV>>,
    allow: Set<ScopedNameV>,
    m: ModuleV<TypeRefV>,
)
    requires
        module1_valid(mods, allow, m),
        forall|k: Seq<char>| #[trigger] mods.contains_key(k) ==> mods2.contains_key(k)
            && mods2[k] == mods[k],
    ensures
        module1_valid(mods2, allow, m),
{
    assert forall|i: int| 0 <= i < m.decls.len() implies decl1_valid(
        mods2,
        allow,
        #[trigger] m.decls[i],
    ) by {
        let d = m.decls[i];
        assert(decl1_valid(mods, allow, d));
        match d.dtype {
            DeclTypeV::Struct { fields, .. } => {
                assert forall|j: int| 0 <= j < fields.len() implies field1_valid(
                    mods2,
                    allow,
                    #[trigger] fields[j],
                ) by {
                    lemma_te_valid_monotone(mods, mods2, allow, fields[j].type_expr);
                }
            },
            DeclTypeV::Union { fields, .. } => {
                assert forall|j: int| 0 <= j < fields.len() implies field1_valid(
                    mods2,
                    allow,
                    #[trigger] fields[j],
                ) by {
                    lemma_te_valid_monotone(mods, mods2, allow, fields[j].type_expr);
                }
            },
            DeclTypeV::Type { type_expr, .. } => {
                lemma_te_valid_monotone(mods, mods2, allow, type_expr);
            },
            DeclTypeV::Newtype { type_expr, .. } => {
                lemma_te_valid_monotone(mods, mods2, allow, type_expr);
            },
        }
    }
}

/// Every resolved module in the map is valid against the map itself:
/// each scoped reference and annotation key either names a declaration
/// of a resolved module under a non-empty module name, or repeats one
/// of that module's own scoped-name imports verbatim; and the module's
/// import clauses carry non-empty module names.
pub open spec fn map_valid(mods: Map<Seq<char>, ModuleV<TypeRefV>>) -> bool {
    forall|k: Seq<char>| #[trigger] mods.contains_key(k) ==> module1_valid(
        mods,
        scoped_imports_of(mods[k].imports),
        mods[k],
    ) && imports_wf(mods[k].imports)
}

/// When every allowed name itself names an existing declaration under
/// a non-empty module name, the allowance can be dropped.
pub proof fn lemma_te_valid_discharge(
    mods: Map<Seq<char>, ModuleV<TypeRefV>>,
    allow: Set<ScopedNameV>,
    te: TypeExprV<TypeRefV>,
)
    requires
        te1_valid(mods, allow, te),
        forall|s: ScopedNameV| #[trigger] allow.contains(s) ==> s.module_name.len() > 0
            && decl_exists(mods, s),
    ensures
        te1_valid(mods, Set::empty(), te),
    decreases te,
{
    assert forall|i: int| 0 <= i < te.parameters.len() implies te1_valid(
        mods,
        Set::empty(),
        #[trigger] te.parameters[i],
    ) by {
        lemma_te_valid_discharge(mods, allow, te.parameters[i]);
    }
}

/// The same, for a whole module.
pub proof fn lemma_module_valid_discharge(
    mods: Map<Seq<char>, ModuleV<TypeRefV>>,
    allow: Set<ScopedNameV>,
    m: ModuleV<TypeRefV>,
)
    requires
        module1_valid(mods, allow, m),
        forall|s: ScopedNameV| #[trigger] allow.contains(s) ==> s.module_name.len() > 0
            && decl_exists(mods, s),
    ensures
        module1_valid(mods, Set::empty(), m),
{
    assert forall|i: int| 0 <= i < m.decls.len() implies decl1_valid(
        mods,
        Set::empty(),
        #[trigger] m.decls[i],
    ) by {
        let d = m.decls[i];
        assert(decl1_valid(mods, allow, d));
        match d.dtype {
            DeclTypeV::Struct { fields, .. } => {
                assert forall|j: int| 0 <= j < fields.len() implies field1_valid(
                    mods,
                    Set::empty(),
                    #[trigger] fields[j],
                ) by {
                    lemma_te_valid_discharge(mods, allow, fields[j].type_expr);
                }
            },
            DeclTypeV::Union { fields, .. } => {
                assert forall|j: int| 0 <= j < fields.len() implies field1_valid(
                    mods,
                    Set::empty(),
                    #[trigger] fields[j],
                ) by {
                    lemma_te_valid_discharge(mods, allow, fields[j].type_expr);
                }
            },
            DeclTypeV::Type { type_expr, .. } => {
                lemma_te_valid_discharge(mods, allow, type_expr);
            },
            DeclTypeV::Newtype { type_expr, .. } => {
                lemma_te_valid_discharge(mods, allow, type_expr);
            },
        }
    }
}

/// In a valid resolved map, every scoped-name type reference and every
/// annotation key of every resolved module names a declaration of a
/// resolved module under a non-empty module name — provided every
/// scoped-name import of every resolved module names an existing
/// declaration, since the decision procedure carries those imports
/// through unchecked.  A module importing a non-existent declaration
/// by scoped name and using it is the one input left out.
pub proof fn lemma_map_valid_refs_exist(mods: Map<Seq<char>, ModuleV<TypeRefV>>)
    requires
        map_valid(mods),
        forall|k: Seq<char>, s: ScopedNameV| mods.contains_key(k) && #[trigger] scoped_imports_of(
            mods[k].imports,
        ).contains(s) ==> decl_exists(mods, s),
    ensures
        forall|k: Seq<char>| #[trigger] mods.contains_key(k) ==> module1_valid(
            mods,
            Set::empty(),
            mods[k],
        ),
{
    assert forall|k: Seq<char>| #[trigger] mods.contains_key(k) implies module1_valid(
        mods,
        Set::empty(),
        mods[k],
    ) by {
        let allow = scoped_imports_of(mods[k].imports);
        assert(module1_valid(mods, allow, mods[k]));
        assert forall|s: ScopedNameV| #[trigger] allow.contains(s) implies s.module_name.len()
            > 0 && decl_exists(mods, s) by {
            let w = choose|w: int|
                0 <= w < mods[k].imports.len() && mods[k].imports[w] == ImportV::ScopedName(s);
            assert(import_module_name(mods[k].imports[w]) == s.module_name);
            assert(imports_wf(mods[k].imports));
        }
        lemma_module_valid_discharge(mods, allow, mods[k]);
    }
}

/// Reference classification reports only name-lookup errors, never a
/// cycle.
proof fn lemma_tr_error_kind(env: ResolveEnvV, sn: ScopedNameV, e: ResolveErrorV)
    requires
        resolve_type_ref_spec(env, sn) == Err::<TypeRefV, ResolveErrorV>(e),
    ensures
        !(e matches ResolveErrorV::CircularModules(_)),
{
}

/// Type-expression resolution reports only name-lookup errors.
proof fn lemma_te_error_kind(env: ResolveEnvV, te: TypeExprV<ScopedNameV>, e: ResolveErrorV)
    requires
        resolve_te_spec(env, te) == Err::<TypeExprV<TypeRefV>, ResolveErrorV>(e),
    ensures
        !(e matches ResolveErrorV::CircularModules(_)),
    decreases te, 1int,
{
    match resolve_type_ref_spec(env, te.type_ref) {
        Err(e0) => {
            lemma_tr_error_kind(env, te.type_ref, e0);
        },
        Ok(_) => {
            lemma_te_list_error_kind(env, te.parameters, e);
        },
    }
}

/// List resolution reports only name-lookup errors.
proof fn lemma_te_list_error_kind(
    env: ResolveEnvV,
    tes: Seq<TypeExprV<ScopedNameV>>,
    e: ResolveErrorV,
)
    requires
        resolve_te_list_spec(env, tes) == Err::<Seq<TypeExprV<TypeRefV>>, ResolveErrorV>(e),
    ensures
        !(e matches ResolveErrorV::CircularModules(_)),
    decreases tes, 0int,
{
    if tes.len() > 0 {
        match resolve_te_spec(env, tes[0]) {
            Err(e0) => {
                lemma_te_error_kind(env, tes[0], e0);
            },
            Ok(_) => {
                lemma_te_list_error_kind(env, tes.drop_first(), e);
            },
        }
    }
}

/// A failing annotation key reports only a name-lookup error or
/// `NoDeclForAnnotation`.
proof fn lemma_annos_error_kind(env: ResolveEnvV, a0: Map<ScopedNameV, JsonValue>, e: ResolveErrorV)
    requires
        annos_error(env, a0, e),
    ensures
        !(e matches ResolveErrorV::CircularModules(_)),
{
    let k = choose|k: ScopedNameV|
        a0.contains_key(k) && #[trigger] resolve_anno_key_spec(env, k) == Err::<
            ScopedNameV,
            ResolveErrorV,
        >(e);
    match resolve_type_ref_spec(env.without_type_params(), k) {
        Err(e0) => {
            lemma_tr_error_kind(env.without_type_params(), k, e0);
        },
        Ok(_) => {},
    }
}

/// A failing field list reports only a resolution error.
proof fn lemma_fields_error_kind(
    env: ResolveEnvV,
    fs0: Seq<FieldV<ScopedNameV>>,
    e: ResolveErrorV,
)
    requires
        fields_error(env, fs0, e),
    ensures
        !(e matches ResolveErrorV::CircularModules(_)),
{
    let i = choose|i: int|
        0 <= i < fs0.len() && (forall|j: int| 0 <= j < i ==> field_ok(env, #[trigger] fs0[j]))
            && field_error(env, #[trigger] fs0[i], e);
    match resolve_te_spec(env, fs0[i].type_expr) {
        Err(e0) => {
            lemma_te_error_kind(env, fs0[i].type_expr, e0);
        },
        Ok(_) => {
            lemma_annos_error_kind(env, fs0[i].annotations, e);
        },
    }
}

/// A failing declaration reports only a resolution error.
proof fn lemma_decl_error_kind(env: ResolveEnvV, d0: DeclV<ScopedNameV>, e: ResolveErrorV)
    requires
        decl_error(env, d0, e),
    ensures
        !(e matches ResolveErrorV::CircularModules(_)),
{
    if dtype_ok(env, d0.dtype) {
        lemma_annos_error_kind(env, d0.annotations, e);
    } else {
        match d0.dtype {
            DeclTypeV::Struct { type_params, fields } => {
                lemma_fields_error_kind(scoped_env(env, type_params), fields, e);
            },
            DeclTypeV::Union { type_params, fields } => {
                lemma_fields_error_kind(scoped_env(env, type_params), fields, e);
            },
            DeclTypeV::Type { type_params, type_expr } => {
                lemma_te_error_kind(scoped_env(env, type_params), type_expr, e);
            },
            DeclTypeV::Newtype { type_params, type_expr, .. } => {
                lemma_te_error_kind(scoped_env(env, type_params), type_expr, e);
            },
        }
    }
}

/// A failing module resolution reports only a resolution error: a
/// missing name, a missing module or declaration behind a qualified
/// reference, or an annotation key that is no declaration — never a
/// cycle and never a load failure.
proof fn lemma_module_error_kind(env: ResolveEnvV, m0: ModuleV<ScopedNameV>, e: ResolveErrorV)
    requires
        module_error(env, m0, e),
    ensures
        !(e matches ResolveErrorV::CircularModules(_)),
{
    if forall|i: int| 0 <= i < m0.decls.len() ==> decl_ok(env, #[trigger] m0.decls[i]) {
        lemma_annos_error_kind(env, m0.annotations, e);
    } else {
        let i = choose|i: int|
            0 <= i < m0.decls.len() && (forall|j: int| 0 <= j < i ==> decl_ok(
                env,
                #[trigger] m0.decls[j],
            )) && decl_error(env, #[trigger] m0.decls[i], e);
        lemma_decl_error_kind(env, m0.decls[i], e);
    }
}

} // verus!
