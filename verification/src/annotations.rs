//! Attaching free-standing annotations to the nodes they target.
//!
//! The parser emits some annotations separately from their targets
//! (free-standing clauses may name nodes declared later in the file), so
//! binding is a post-parse pass.  `apply_explicit_annotations` walks the
//! sidecar list: each record either lands in the annotation table of the
//! module, of a declaration, or of a field of a struct or union, or is
//! reported back as unresolved.  All failures are collected; the pass
//! fails exactly when at least one record fails.

use vstd::prelude::*;

use crate::ast::{
    decl_fields_unique, decl_index_of, decl_names_unique, decls_view, eas_view, field_index_of,
    field_names_unique, fields_view, find_decl_index, find_field_index, has_decl_named,
    has_field_named, module_wf,
    DeclType, DeclTypeV, DeclV, ExplicitAnnotation, ExplicitAnnotationRef, ExplicitAnnotationRefV,
    ExplicitAnnotationV, Decl, FieldV, JsonValue, Module0, ModuleV, RawModule, ScopedName,
    ScopedNameV,
};

verus! {

/// Whether the target of an explicit annotation exists in the module.
/// `Field` targets resolve only inside struct and union declarations:
/// aliases and newtypes carry no fields.
pub open spec fn ea_target_ok<R>(m: ModuleV<R>, r: ExplicitAnnotationRefV) -> bool {
    match r {
        ExplicitAnnotationRefV::Module => true,
        ExplicitAnnotationRefV::Decl(d) => has_decl_named(m.decls, d),
        ExplicitAnnotationRefV::Field(d, f) => has_decl_named(m.decls, d)
            && dtype_has_field(m.decls[decl_index_of(m.decls, d)].dtype, f),
    }
}

/// Whether a declaration body is a struct or union holding a field of
/// the given name.
pub open spec fn dtype_has_field<R>(dt: DeclTypeV<R>, f: Seq<char>) -> bool {
    match dt {
        DeclTypeV::Struct { fields, .. } => has_field_named(fields, f),
        DeclTypeV::Union { fields, .. } => has_field_named(fields, f),
        _ => false,
    }
}

/// The module after one annotation record lands on its (existing) target:
/// the record's key is bound to its value in the target's table,
/// overwriting any earlier binding of the key.
pub open spec fn bind_one<R>(m: ModuleV<R>, ea: ExplicitAnnotationV) -> ModuleV<R> {
    match ea.refr {
        ExplicitAnnotationRefV::Module => ModuleV {
            annotations: m.annotations.insert(ea.scoped_name, ea.value),
            ..m
        },
        ExplicitAnnotationRefV::Decl(d) => {
            let i = decl_index_of(m.decls, d);
            let decl = m.decls[i];
            ModuleV {
                decls: m.decls.update(
                    i,
                    DeclV { annotations: decl.annotations.insert(ea.scoped_name, ea.value), ..decl },
                ),
                ..m
            }
        },
        ExplicitAnnotationRefV::Field(d, f) => {
            let i = decl_index_of(m.decls, d);
            let decl = m.decls[i];
            let dt = match decl.dtype {
                DeclTypeV::Struct { type_params, fields } => {
                    let j = field_index_of(fields, f);
                    let fld = fields[j];
                    DeclTypeV::Struct {
                        type_params,
                        fields: fields.update(
                            j,
                            FieldV {
                                annotations: fld.annotations.insert(ea.scoped_name, ea.value),
                                ..fld
                            },
                        ),
                    }
                },
                DeclTypeV::Union { type_params, fields } => {
                    let j = field_index_of(fields, f);
                    let fld = fields[j];
                    DeclTypeV::Union {
                        type_params,
                        fields: fields.update(
                            j,
                            FieldV {
                                annotations: fld.annotations.insert(ea.scoped_name, ea.value),
                                ..fld
                            },
                        ),
                    }
                },
                other => other,
            };
            ModuleV { decls: m.decls.update(i, DeclV { dtype: dt, ..decl }), ..m }
        },
    }
}

/// One binding step: the record lands when its target exists, else the
/// module is unchanged (the failure is reported separately).
pub open spec fn bind_step<R>(m: ModuleV<R>, ea: ExplicitAnnotationV) -> ModuleV<R> {
    if ea_target_ok(m, ea.refr) {
        bind_one(m, ea)
    } else {
        m
    }
}

/// The module after every record of the list has been processed in order.
pub open spec fn bind_all<R>(m: ModuleV<R>, eas: Seq<ExplicitAnnotationV>) -> ModuleV<R>
    decreases eas.len(),
{
    if eas.len() == 0 {
        m
    } else {
        bind_all(bind_step(m, eas[0]), eas.drop_first())
    }
}

/// The targets of the records that do not resolve against the module, in
/// list order.
pub open spec fn unresolved_refs<R>(m: ModuleV<R>, eas: Seq<ExplicitAnnotationV>) -> Seq<
    ExplicitAnnotationRefV,
>
    decreases eas.len(),
{
    if eas.len() == 0 {
        Seq::empty()
    } else {
        let rest = unresolved_refs(m, eas.drop_first());
        if ea_target_ok(m, eas[0].refr) {
            rest
        } else {
            seq![eas[0].refr] + rest
        }
    }
}

/// Two modules with the same skeleton: equal names, declaration order,
/// body variants and field names; only annotation tables (and other
/// payload) may differ.
pub open spec fn same_skeleton<R>(a: ModuleV<R>, b: ModuleV<R>) -> bool {
    &&& a.decls.len() == b.decls.len()
    &&& forall|i: int| 0 <= i < a.decls.len()
        ==> (#[trigger] b.decls[i]).name == a.decls[i].name && same_dtype_skeleton(
            a.decls[i].dtype,
            b.decls[i].dtype,
        )
}

/// Same body variant, and for structs and unions the same field count
/// and field names in order.
pub open spec fn same_dtype_skeleton<R>(x: DeclTypeV<R>, y: DeclTypeV<R>) -> bool {
    match (x, y) {
        (DeclTypeV::Struct { fields: fx, .. }, DeclTypeV::Struct { fields: fy, .. }) => fx.len()
            == fy.len() && forall|j: int| 0 <= j < fx.len()
            ==> (#[trigger] fy[j]).name == fx[j].name,
        (DeclTypeV::Union { fields: fx, .. }, DeclTypeV::Union { fields: fy, .. }) => fx.len()
            == fy.len() && forall|j: int| 0 <= j < fx.len()
            ==> (#[trigger] fy[j]).name == fx[j].name,
        (DeclTypeV::Type { .. }, DeclTypeV::Type { .. }) => true,
        (DeclTypeV::Newtype { .. }, DeclTypeV::Newtype { .. }) => true,
        _ => false,
    }
}

/// A landing record does not change the module's skeleton.
pub proof fn lemma_bind_step_skeleton<R>(m: ModuleV<R>, ea: ExplicitAnnotationV)
    ensures
        same_skeleton(m, bind_step(m, ea)),
{
    let b = bind_step(m, ea);
    assert forall|i: int| 0 <= i < m.decls.len() implies (#[trigger] b.decls[i]).name
        == m.decls[i].name && same_dtype_skeleton(m.decls[i].dtype, b.decls[i].dtype) by {
        assert(same_dtype_skeleton(m.decls[i].dtype, m.decls[i].dtype));
        if b.decls[i] != m.decls[i] {
            assert(same_dtype_skeleton(m.decls[i].dtype, b.decls[i].dtype));
        }
    }
}

/// Modules with the same skeleton agree on which targets exist, given
/// unique declaration names.
pub proof fn lemma_skeleton_target_ok<R>(a: ModuleV<R>, b: ModuleV<R>, r: ExplicitAnnotationRefV)
    requires
        same_skeleton(a, b),
        decl_names_unique(a.decls),
    ensures
        ea_target_ok(a, r) == ea_target_ok(b, r),
{
    match r {
        ExplicitAnnotationRefV::Module => {},
        ExplicitAnnotationRefV::Decl(d) => {
            lemma_skeleton_has_decl(a, b, d);
        },
        ExplicitAnnotationRefV::Field(d, f) => {
            lemma_skeleton_has_decl(a, b, d);
            if has_decl_named(a.decls, d) {
                let i = decl_index_of(a.decls, d);
                let k = decl_index_of(b.decls, d);
                assert(a.decls[i].name == d && 0 <= i < a.decls.len());
                assert(b.decls[k].name == d && 0 <= k < b.decls.len());
                assert(b.decls[i].name == a.decls[i].name);
                assert(a.decls[k].name == b.decls[k].name);
                assert(i == k);
                lemma_same_dtype_field(a.decls[i].dtype, b.decls[i].dtype, f);
            }
        },
    }
}

/// Modules with the same skeleton declare the same names.
pub proof fn lemma_skeleton_has_decl<R>(a: ModuleV<R>, b: ModuleV<R>, d: Seq<char>)
    requires
        same_skeleton(a, b),
    ensures
        has_decl_named(a.decls, d) == has_decl_named(b.decls, d),
{
    if has_decl_named(a.decls, d) {
        let i = choose|i: int| 0 <= i < a.decls.len() && a.decls[i].name == d;
        assert(b.decls[i].name == d);
    }
    if has_decl_named(b.decls, d) {
        let i = choose|i: int| 0 <= i < b.decls.len() && b.decls[i].name == d;
        assert(b.decls[i].name == a.decls[i].name);
        assert(a.decls[i].name == d);
    }
}

/// Bodies with the same skeleton hold the same field names.
pub proof fn lemma_same_dtype_field<R>(x: DeclTypeV<R>, y: DeclTypeV<R>, f: Seq<char>)
    requires
        same_dtype_skeleton(x, y),
    ensures
        dtype_has_field(x, f) == dtype_has_field(y, f),
{
    match (x, y) {
        (DeclTypeV::Struct { fields: fx, .. }, DeclTypeV::Struct { fields: fy, .. }) => {
            if has_field_named(fx, f) {
                let j = choose|j: int| 0 <= j < fx.len() && fx[j].name == f;
                assert(fy[j].name == f);
            }
            if has_field_named(fy, f) {
                let j = choose|j: int| 0 <= j < fy.len() && fy[j].name == f;
                assert(fy[j].name == fx[j].name);
            }
        },
        (DeclTypeV::Union { fields: fx, .. }, DeclTypeV::Union { fields: fy, .. }) => {
            if has_field_named(fx, f) {
                let j = choose|j: int| 0 <= j < fx.len() && fx[j].name == f;
                assert(fy[j].name == f);
            }
            if has_field_named(fy, f) {
                let j = choose|j: int| 0 <= j < fy.len() && fy[j].name == f;
                assert(fy[j].name == fx[j].name);
            }
        },
        _ => {},
    }
}

/// Skeleton preservation carries the parser's uniqueness guarantees.
pub proof fn lemma_skeleton_wf<R>(a: ModuleV<R>, b: ModuleV<R>)
    requires
        same_skeleton(a, b),
        module_wf(a),
    ensures
        module_wf(b),
        decl_names_unique(b.decls),
{
    assert forall|i: int| 0 <= i < b.decls.len() implies decl_fields_unique(
        #[trigger] b.decls[i].dtype,
    ) by {
        assert(decl_fields_unique(a.decls[i].dtype));
        assert(same_dtype_skeleton(a.decls[i].dtype, b.decls[i].dtype));
    }
}

/// Same-skeleton is transitive.
pub proof fn lemma_skeleton_trans<R>(a: ModuleV<R>, b: ModuleV<R>, c: ModuleV<R>)
    requires
        same_skeleton(a, b),
        same_skeleton(b, c),
    ensures
        same_skeleton(a, c),
{
    assert forall|i: int| 0 <= i < a.decls.len() implies (#[trigger] c.decls[i]).name
        == a.decls[i].name && same_dtype_skeleton(a.decls[i].dtype, c.decls[i].dtype) by {
        assert(same_dtype_skeleton(a.decls[i].dtype, b.decls[i].dtype));
        assert(same_dtype_skeleton(b.decls[i].dtype, c.decls[i].dtype));
    }
}

/// Processing one more record extends the fold by one step.
pub proof fn lemma_bind_all_snoc<R>(m: ModuleV<R>, eas: Seq<ExplicitAnnotationV>, ea: ExplicitAnnotationV)
    ensures
        bind_all(m, eas.push(ea)) == bind_step(bind_all(m, eas), ea),
    decreases eas.len(),
{
    let s1 = eas.push(ea);
    if eas.len() == 0 {
        assert(s1[0] == ea);
        assert(s1.drop_first() =~= Seq::<ExplicitAnnotationV>::empty());
        assert(bind_all(m, s1) == bind_all(bind_step(m, ea), s1.drop_first()));
        assert(bind_all(bind_step(m, ea), s1.drop_first()) == bind_step(m, ea));
        assert(bind_all(m, eas) == m);
    } else {
        assert(s1[0] == eas[0]);
        assert(s1.drop_first() =~= eas.drop_first().push(ea));
        assert(bind_all(m, s1) == bind_all(bind_step(m, eas[0]), eas.drop_first().push(ea)));
        lemma_bind_all_snoc(bind_step(m, eas[0]), eas.drop_first(), ea);
        assert(bind_all(m, eas) == bind_all(bind_step(m, eas[0]), eas.drop_first()));
    }
}

/// The unresolved list of one more record appends its target exactly
/// when that target is missing.
pub proof fn lemma_unresolved_snoc<R>(m: ModuleV<R>, eas: Seq<ExplicitAnnotationV>, ea: ExplicitAnnotationV)
    ensures
        unresolved_refs(m, eas.push(ea)) == if ea_target_ok(m, ea.refr) {
            unresolved_refs(m, eas)
        } else {
            unresolved_refs(m, eas).push(ea.refr)
        },
    decreases eas.len(),
{
    let s1 = eas.push(ea);
    if eas.len() == 0 {
        assert(s1[0] == ea);
        assert(s1.drop_first() =~= Seq::<ExplicitAnnotationV>::empty());
        assert(unresolved_refs(m, s1.drop_first()) =~= Seq::<ExplicitAnnotationRefV>::empty());
        assert(unresolved_refs(m, eas) =~= Seq::<ExplicitAnnotationRefV>::empty());
        if !ea_target_ok(m, ea.refr) {
            assert(unresolved_refs(m, s1) == seq![ea.refr] + unresolved_refs(m, s1.drop_first()));
            assert(seq![ea.refr] + unresolved_refs(m, s1.drop_first()) =~= unresolved_refs(
                m,
                eas,
            ).push(ea.refr));
        }
    } else {
        assert(s1[0] == eas[0]);
        assert(s1.drop_first() =~= eas.drop_first().push(ea));
        lemma_unresolved_snoc(m, eas.drop_first(), ea);
        assert(unresolved_refs(m, eas) == if ea_target_ok(m, eas[0].refr) {
            unresolved_refs(m, eas.drop_first())
        } else {
            seq![eas[0].refr] + unresolved_refs(m, eas.drop_first())
        });
        assert(unresolved_refs(m, s1) == if ea_target_ok(m, s1[0].refr) {
            unresolved_refs(m, s1.drop_first())
        } else {
            seq![s1[0].refr] + unresolved_refs(m, s1.drop_first())
        });
        if !ea_target_ok(m, eas[0].refr) && !ea_target_ok(m, ea.refr) {
            assert(seq![eas[0].refr] + unresolved_refs(m, eas.drop_first()).push(ea.refr) =~= (
            seq![eas[0].refr] + unresolved_refs(m, eas.drop_first())).push(ea.refr));
        }
    }
}

/// Binding never touches the import list.
pub proof fn lemma_bind_all_imports<R>(m: ModuleV<R>, eas: Seq<ExplicitAnnotationV>)
    ensures
        bind_all(m, eas).imports == m.imports,
        bind_all(m, eas).name == m.name,
    decreases eas.len(),
{
    if eas.len() > 0 {
        lemma_bind_all_imports(bind_step(m, eas[0]), eas.drop_first());
    }
}

/// The error value of the binder: every free-standing annotation whose
/// target was missing, in input order.
#[derive(Debug, PartialEq)]
pub struct UnresolvedExplicitAnnotations {
    pub unresolved: Vec<ExplicitAnnotationRef>,
}

/// The models of the unresolved targets.
pub open spec fn refs_view(s: Seq<ExplicitAnnotationRef>) -> Seq<ExplicitAnnotationRefV> {
    Seq::new(s.len(), |i: int| s[i]@)
}

impl View for UnresolvedExplicitAnnotations {
    type V = Seq<ExplicitAnnotationRefV>;

    open spec fn view(&self) -> Seq<ExplicitAnnotationRefV> {
        refs_view(self.unresolved@)
    }
}

/// The position of the named field inside a struct or union body.
pub open spec fn spec_field_slot<R>(dt: DeclTypeV<R>, f: Seq<char>) -> int {
    match dt {
        DeclTypeV::Struct { fields, .. } => field_index_of(fields, f),
        DeclTypeV::Union { fields, .. } => field_index_of(fields, f),
        _ => 0,
    }
}

/// Locates the target of a `Field` reference: the declaration index and
/// the field index inside it, when the declaration exists, is a struct
/// or union, and holds the field.
fn locate_field_target(decls: &Vec<Decl<ScopedName>>, d: &String, f: &String) -> (r: Option<
    (usize, usize),
>)
    requires
        decl_names_unique(decls_view(decls@)),
        forall|i: int| 0 <= i < decls@.len() ==> decl_fields_unique(
            #[trigger] decls_view(decls@)[i].dtype,
        ),
    ensures
        match r {
            Some(ij) => has_decl_named(decls_view(decls@), d@) && ij.0 as int == decl_index_of(
                decls_view(decls@),
                d@,
            ) && dtype_has_field(decls_view(decls@)[ij.0 as int].dtype, f@) && ij.1 as int
                == spec_field_slot(decls_view(decls@)[ij.0 as int].dtype, f@),
            None => !(has_decl_named(decls_view(decls@), d@) && dtype_has_field(
                decls_view(decls@)[decl_index_of(decls_view(decls@), d@)].dtype,
                f@,
            )),
        },
{
    let ghost dv = decls_view(decls@);
    match find_decl_index(decls, d) {
        Some(i) => {
            proof {
                assert(dv[i as int].dtype == decls@[i as int]@.dtype);
            }
            match &decls[i].dtype {
                DeclType::Struct(s) => {
                    proof {
                        assert(decl_fields_unique(decls_view(decls@)[i as int].dtype));
                        assert(dv[i as int].dtype matches DeclTypeV::Struct { fields, .. }
                            && fields == fields_view(s.fields@));
                        assert(crate::ast::field_names_unique(fields_view(s.fields@)));
                    }
                    match find_field_index(&s.fields, f) {
                        Some(j) => {
                            proof {
                                assert(fields_view(s.fields@)[j as int].name == f@);
                                assert(has_field_named(fields_view(s.fields@), f@));
                            }
                            Some((i, j))
                        },
                        None => None,
                    }
                },
                DeclType::Union(u) => {
                    proof {
                        assert(decl_fields_unique(decls_view(decls@)[i as int].dtype));
                        assert(dv[i as int].dtype matches DeclTypeV::Union { fields, .. }
                            && fields == fields_view(u.fields@));
                        assert(crate::ast::field_names_unique(fields_view(u.fields@)));
                    }
                    match find_field_index(&u.fields, f) {
                        Some(j) => {
                            proof {
                                assert(fields_view(u.fields@)[j as int].name == f@);
                                assert(has_field_named(fields_view(u.fields@), f@));
                            }
                            Some((i, j))
                        },
                        None => None,
                    }
                },
                _ => {
                    proof {
                        assert(!(dv[i as int].dtype matches DeclTypeV::Struct { .. }));
                        assert(!(dv[i as int].dtype matches DeclTypeV::Union { .. }));
                    }
                    None
                },
            }
        },
        None => None,
    }
}

/// Attaches every explicit annotation to the node it targets.  Returns
/// the bound module when every record lands; otherwise returns the
/// targets that could not be found, in input order — `Ok` exactly when
/// that list would be empty.
pub fn apply_explicit_annotations(raw_module: RawModule) -> (r: Result<
    Module0,
    UnresolvedExplicitAnnotations,
>)
    requires
        module_wf(raw_module.0@),
    ensures
        match r {
            Ok(m0) => unresolved_refs(raw_module.0@, eas_view(raw_module.1@)).len() == 0 && m0@
                == bind_all(raw_module.0@, eas_view(raw_module.1@)),
            Err(u) => u@ == unresolved_refs(raw_module.0@, eas_view(raw_module.1@)) && u@.len() > 0,
        },
{
    let (mut module0, explicit_annotations) = raw_module;
    let ghost m_orig = module0@;
    let ghost eas_all = eas_view(explicit_annotations@);
    let mut eas = explicit_annotations;
    let mut unresolved: Vec<ExplicitAnnotationRef> = Vec::new();
    let ghost mut k: int = 0;

    proof {
        assert(eas_all.take(0) =~= Seq::<ExplicitAnnotationV>::empty());
        assert(refs_view(unresolved@) =~= Seq::<ExplicitAnnotationRefV>::empty());
        assert(eas_view(eas@) =~= eas_all.skip(0));
    }

    while eas.len() > 0
        invariant
            0 <= k <= eas_all.len(),
            eas_view(eas@) == eas_all.skip(k),
            module0@ == bind_all(m_orig, eas_all.take(k)),
            refs_view(unresolved@) == unresolved_refs(m_orig, eas_all.take(k)),
            module_wf(m_orig),
            same_skeleton(m_orig, module0@),
        decreases eas@.len(),
    {
        let ghost prev = eas@;
        let ea = eas.remove(0);
        proof {
            assert(ea == prev[0]);
            assert(eas_view(prev)[0] == prev[0]@);
            assert(eas_all.skip(k).len() == prev.len());
            assert(eas_all.skip(k)[0] == eas_all[k]);
            assert(ea@ == eas_all[k]);
            assert(eas_view(eas@) =~= eas_all.skip(k + 1)) by {
                assert(eas@ =~= prev.drop_first());
                assert forall|i: int| 0 <= i < eas@.len() implies eas_view(eas@)[i]
                    == eas_all.skip(k + 1)[i] by {
                    assert(eas@[i] == prev[i + 1]);
                    assert(eas_view(prev)[i + 1] == prev[i + 1]@);
                    assert(eas_all.skip(k)[i + 1] == eas_all[k + 1 + i]);
                    assert(eas_all.skip(k + 1)[i] == eas_all[k + 1 + i]);
                }
            }
            lemma_skeleton_wf(m_orig, module0@);
            lemma_skeleton_target_ok(m_orig, module0@, ea@.refr);
            lemma_bind_all_snoc(m_orig, eas_all.take(k), ea@);
            lemma_unresolved_snoc(m_orig, eas_all.take(k), ea@);
            assert(eas_all.take(k + 1) =~= eas_all.take(k).push(eas_all[k]));
            lemma_bind_step_skeleton(module0@, ea@);
        }
        let ghost m_before = module0@;
        let ghost eav = ea@;
        let ExplicitAnnotation { refr, scoped_name, value } = ea;
        match refr {
            ExplicitAnnotationRef::Module => {
                module0.annotations.insert(scoped_name, value);
                proof {
                    assert(module0@ =~= bind_one(m_before, eav));
                }
            },
            ExplicitAnnotationRef::Decl(d) => {
                match find_decl_index(&module0.decls, &d) {
                    Some(i) => {
                        let ghost old_decls = module0.decls@;
                        let mut decl = module0.decls.remove(i);
                        decl.annotations.insert(scoped_name, value);
                        module0.decls.insert(i, decl);
                        proof {
                            let bound = bind_one(m_before, eav);
                            assert(decl@ =~= bound.decls[i as int]);
                            assert(module0.decls@ =~= old_decls.update(i as int, decl));
                            assert(decls_view(module0.decls@) =~= bound.decls);
                            assert(module0@ =~= bound);
                        }
                    },
                    None => {
                        let ghost old_unres = refs_view(unresolved@);
                        unresolved.push(ExplicitAnnotationRef::Decl(d));
                        proof {
                            assert(refs_view(unresolved@) =~= old_unres.push(eav.refr));
                        }
                    },
                }
            },
            ExplicitAnnotationRef::Field((d, f)) => {
                match locate_field_target(&module0.decls, &d, &f) {
                    Some((i, j)) => {
                        let ghost old_decls = module0.decls@;
                        let mut decl = module0.decls.remove(i);
                        let ghost bound = bind_one(m_before, eav);
                        match decl.dtype {
                            DeclType::Struct(mut s) => {
                                let ghost old_fields = s.fields@;
                                let mut fld = s.fields.remove(j);
                                fld.annotations.insert(scoped_name, value);
                                s.fields.insert(j, fld);
                                proof {
                                    assert(s.fields@ =~= old_fields.update(j as int, fld));
                                    assert(fields_view(s.fields@) =~= fields_view(
                                        old_fields,
                                    ).update(j as int, fld@));
                                }
                                decl.dtype = DeclType::Struct(s);
                            },
                            DeclType::Union(mut u) => {
                                let ghost old_fields = u.fields@;
                                let mut fld = u.fields.remove(j);
                                fld.annotations.insert(scoped_name, value);
                                u.fields.insert(j, fld);
                                proof {
                                    assert(u.fields@ =~= old_fields.update(j as int, fld));
                                    assert(fields_view(u.fields@) =~= fields_view(
                                        old_fields,
                                    ).update(j as int, fld@));
                                }
                                decl.dtype = DeclType::Union(u);
                            },
                            other => {
                                proof {
                                    assert(dtype_has_field(m_before.decls[i as int].dtype, f@));
                                    assert(false);
                                }
                                decl.dtype = other;
                            },
                        }
                        module0.decls.insert(i, decl);
                        proof {
                            assert(decl@.dtype =~= bound.decls[i as int].dtype);
                            assert(decl@ =~= bound.decls[i as int]);
                            assert(module0.decls@ =~= old_decls.update(i as int, decl));
                            assert(decls_view(module0.decls@) =~= bound.decls);
                            assert(module0@ =~= bound);
                        }
                    },
                    None => {
                        let ghost old_unres = refs_view(unresolved@);
                        unresolved.push(ExplicitAnnotationRef::Field((d, f)));
                        proof {
                            assert(refs_view(unresolved@) =~= old_unres.push(eav.refr));
                        }
                    },
                }
            },
        }
        proof {
            lemma_skeleton_trans(m_orig, m_before, module0@);
            k = k + 1;
        }
    }

    proof {
        assert(eas_all.take(k) =~= eas_all);
    }
    if unresolved.len() == 0 {
        proof {
            assert(refs_view(unresolved@) =~= Seq::<ExplicitAnnotationRefV>::empty());
        }
        Ok(module0)
    } else {
        Err(UnresolvedExplicitAnnotations { unresolved })
    }
}

/// No two records bind the same key to the same target.
pub open spec fn eas_distinct(eas: Seq<ExplicitAnnotationV>) -> bool {
    forall|i: int, j: int| 0 <= i < j < eas.len() ==> ((#[trigger] eas[i]).refr, eas[i].scoped_name)
        != ((#[trigger] eas[j]).refr, eas[j].scoped_name)
}

/// Updating a declaration in place, keeping its name, moves no other
/// declaration and keeps lookup indices, given unique names.
proof fn lemma_decl_index_update<R>(s: Seq<DeclV<R>>, i: int, x: DeclV<R>, d: Seq<char>)
    requires
        decl_names_unique(s),
        0 <= i < s.len(),
        x.name == s[i].name,
        has_decl_named(s, d),
    ensures
        has_decl_named(s.update(i, x), d),
        decl_index_of(s.update(i, x), d) == decl_index_of(s, d),
{
    let w = decl_index_of(s, d);
    assert(s.update(i, x)[w].name == d);
    assert(has_decl_named(s.update(i, x), d));
    let w2 = decl_index_of(s.update(i, x), d);
    assert(s.update(i, x)[w2].name == d);
    assert(s[w2].name == d);
    assert(w2 == w);
}

/// Updating a field in place, keeping its name, keeps lookup indices,
/// given unique field names.
proof fn lemma_field_index_update<R>(s: Seq<FieldV<R>>, j: int, x: FieldV<R>, f: Seq<char>)
    requires
        field_names_unique(s),
        0 <= j < s.len(),
        x.name == s[j].name,
        has_field_named(s, f),
    ensures
        has_field_named(s.update(j, x), f),
        field_index_of(s.update(j, x), f) == field_index_of(s, f),
{
    let w = field_index_of(s, f);
    assert(s.update(j, x)[w].name == f);
    assert(has_field_named(s.update(j, x), f));
    let w2 = field_index_of(s.update(j, x), f);
    assert(s.update(j, x)[w2].name == f);
    assert(s[w2].name == f);
    assert(w2 == w);
}

/// Two records that differ in target or key land in either order with
/// the same outcome, on a well-formed module whose targets both exist.
#[verifier::rlimit(100)]
proof fn lemma_bind_one_commutes<R>(m: ModuleV<R>, a: ExplicitAnnotationV, b: ExplicitAnnotationV)
    requires
        module_wf(m),
        (a.refr, a.scoped_name) != (b.refr, b.scoped_name),
        ea_target_ok(m, a.refr),
        ea_target_ok(m, b.refr),
    ensures
        bind_one(bind_one(m, a), b) == bind_one(bind_one(m, b), a),
{
    lemma_bind_step_skeleton(m, a);
    lemma_bind_step_skeleton(m, b);
    let ma = bind_one(m, a);
    let mb = bind_one(m, b);
    match (a.refr, b.refr) {
        (ExplicitAnnotationRefV::Module, ExplicitAnnotationRefV::Module) => {
            assert(a.scoped_name != b.scoped_name);
            assert(m.annotations.insert(a.scoped_name, a.value).insert(b.scoped_name, b.value)
                =~= m.annotations.insert(b.scoped_name, b.value).insert(a.scoped_name, a.value));
            assert(bind_one(ma, b) =~= bind_one(mb, a));
        },
        (ExplicitAnnotationRefV::Module, ExplicitAnnotationRefV::Decl(d)) => {
            assert(ma.decls == m.decls);
            assert(bind_one(ma, b) =~= bind_one(mb, a));
        },
        (ExplicitAnnotationRefV::Decl(d), ExplicitAnnotationRefV::Module) => {
            assert(mb.decls == m.decls);
            assert(bind_one(ma, b) =~= bind_one(mb, a));
        },
        (ExplicitAnnotationRefV::Module, ExplicitAnnotationRefV::Field(d, f)) => {
            assert(ma.decls == m.decls);
            assert(bind_one(ma, b) =~= bind_one(mb, a));
        },
        (ExplicitAnnotationRefV::Field(d, f), ExplicitAnnotationRefV::Module) => {
            assert(mb.decls == m.decls);
            assert(bind_one(ma, b) =~= bind_one(mb, a));
        },
        (ExplicitAnnotationRefV::Decl(d1), ExplicitAnnotationRefV::Decl(d2)) => {
            let i1 = decl_index_of(m.decls, d1);
            let i2 = decl_index_of(m.decls, d2);
            let x1 = DeclV {
                annotations: m.decls[i1].annotations.insert(a.scoped_name, a.value),
                ..m.decls[i1]
            };
            let x2 = DeclV {
                annotations: m.decls[i2].annotations.insert(b.scoped_name, b.value),
                ..m.decls[i2]
            };
            if d1 == d2 {
                assert(a.scoped_name != b.scoped_name);
                assert(i1 == i2);
                lemma_decl_index_update(m.decls, i1, x1, d2);
                lemma_decl_index_update(m.decls, i2, x2, d1);
                assert(ma.decls[i1] == x1);
                assert(mb.decls[i1] == x2);
                assert(x1.annotations.insert(b.scoped_name, b.value) =~= x2.annotations.insert(
                    a.scoped_name,
                    a.value,
                ));
                assert(ma.decls.update(i1, DeclV {
                    annotations: x1.annotations.insert(b.scoped_name, b.value),
                    ..x1
                }) =~= mb.decls.update(i1, DeclV {
                    annotations: x2.annotations.insert(a.scoped_name, a.value),
                    ..x2
                }));
                assert(bind_one(ma, b) =~= bind_one(mb, a));
            } else {
                lemma_decl_index_update(m.decls, i1, x1, d2);
                lemma_decl_index_update(m.decls, i2, x2, d1);
                assert(i1 != i2);
                assert(ma.decls[i2] == m.decls[i2]);
                assert(mb.decls[i1] == m.decls[i1]);
                assert(ma.decls.update(i2, x2) =~= mb.decls.update(i1, x1));
                assert(bind_one(ma, b) =~= bind_one(mb, a));
            }
        },
        (ExplicitAnnotationRefV::Decl(d1), ExplicitAnnotationRefV::Field(d2, f)) => {
            lemma_commute_decl_field(m, a, b, d1, d2, f);
        },
        (ExplicitAnnotationRefV::Field(d2, f), ExplicitAnnotationRefV::Decl(d1)) => {
            lemma_commute_decl_field(m, b, a, d1, d2, f);
        },
        (ExplicitAnnotationRefV::Field(d1, f1), ExplicitAnnotationRefV::Field(d2, f2)) => {
            lemma_commute_field_field(m, a, b, d1, f1, d2, f2);
        },
    }
}

/// The body of a declaration after a field-targeted record lands in it.
spec fn dtype_with_field_anno<R>(
    dt: DeclTypeV<R>,
    f: Seq<char>,
    key: ScopedNameV,
    value: JsonValue,
) -> DeclTypeV<R> {
    match dt {
        DeclTypeV::Struct { type_params, fields } => {
            let j = field_index_of(fields, f);
            let fld = fields[j];
            DeclTypeV::Struct {
                type_params,
                fields: fields.update(
                    j,
                    FieldV { annotations: fld.annotations.insert(key, value), ..fld },
                ),
            }
        },
        DeclTypeV::Union { type_params, fields } => {
            let j = field_index_of(fields, f);
            let fld = fields[j];
            DeclTypeV::Union {
                type_params,
                fields: fields.update(
                    j,
                    FieldV { annotations: fld.annotations.insert(key, value), ..fld },
                ),
            }
        },
        other => other,
    }
}

/// A record on a declaration and a record on a field land in either
/// order with the same outcome.
#[verifier::rlimit(100)]
proof fn lemma_commute_decl_field<R>(
    m: ModuleV<R>,
    a: ExplicitAnnotationV,
    b: ExplicitAnnotationV,
    d1: Seq<char>,
    d2: Seq<char>,
    f: Seq<char>,
)
    requires
        module_wf(m),
        a.refr == ExplicitAnnotationRefV::Decl(d1),
        b.refr == ExplicitAnnotationRefV::Field(d2, f),
        ea_target_ok(m, a.refr),
        ea_target_ok(m, b.refr),
    ensures
        bind_one(bind_one(m, a), b) == bind_one(bind_one(m, b), a),
{
    let ma = bind_one(m, a);
    let mb = bind_one(m, b);
    let i1 = decl_index_of(m.decls, d1);
    let i2 = decl_index_of(m.decls, d2);
    let x1 = DeclV {
        annotations: m.decls[i1].annotations.insert(a.scoped_name, a.value),
        ..m.decls[i1]
    };
    let x2 = DeclV {
        dtype: dtype_with_field_anno(m.decls[i2].dtype, f, b.scoped_name, b.value),
        ..m.decls[i2]
    };
    assert(mb.decls == m.decls.update(i2, x2));
    assert(ma.decls == m.decls.update(i1, x1));
    lemma_decl_index_update(m.decls, i1, x1, d2);
    lemma_decl_index_update(m.decls, i2, x2, d1);
    if d1 == d2 {
        assert(i1 == i2);
        assert(ma.decls[i1] == x1);
        assert(mb.decls[i1] == x2);
        let y1 = DeclV { dtype: dtype_with_field_anno(x1.dtype, f, b.scoped_name, b.value), ..x1 };
        let y2 = DeclV {
            annotations: x2.annotations.insert(a.scoped_name, a.value),
            ..x2
        };
        assert(x1.dtype == m.decls[i1].dtype);
        assert(x2.annotations == m.decls[i1].annotations);
        assert(y1 =~= y2);
        assert(bind_one(ma, b).decls =~= ma.decls.update(i1, y1));
        assert(bind_one(mb, a).decls =~= mb.decls.update(i1, y2));
        assert(ma.decls.update(i1, y1) =~= mb.decls.update(i1, y2));
        assert(bind_one(ma, b) =~= bind_one(mb, a));
    } else {
        assert(i1 != i2);
        assert(ma.decls[i2] == m.decls[i2]);
        assert(mb.decls[i1] == m.decls[i1]);
        assert(bind_one(ma, b).decls =~= ma.decls.update(i2, x2));
        assert(bind_one(mb, a).decls =~= mb.decls.update(i1, x1));
        assert(ma.decls.update(i2, x2) =~= mb.decls.update(i1, x1));
        assert(bind_one(ma, b) =~= bind_one(mb, a));
    }
}

/// Two field-targeted records land in either order with the same
/// outcome, when target or key differ.
#[verifier::rlimit(100)]
proof fn lemma_commute_field_field<R>(
    m: ModuleV<R>,
    a: ExplicitAnnotationV,
    b: ExplicitAnnotationV,
    d1: Seq<char>,
    f1: Seq<char>,
    d2: Seq<char>,
    f2: Seq<char>,
)
    requires
        module_wf(m),
        a.refr == ExplicitAnnotationRefV::Field(d1, f1),
        b.refr == ExplicitAnnotationRefV::Field(d2, f2),
        (a.refr, a.scoped_name) != (b.refr, b.scoped_name),
        ea_target_ok(m, a.refr),
        ea_target_ok(m, b.refr),
    ensures
        bind_one(bind_one(m, a), b) == bind_one(bind_one(m, b), a),
{
    let ma = bind_one(m, a);
    let mb = bind_one(m, b);
    let i1 = decl_index_of(m.decls, d1);
    let i2 = decl_index_of(m.decls, d2);
    let x1 = DeclV {
        dtype: dtype_with_field_anno(m.decls[i1].dtype, f1, a.scoped_name, a.value),
        ..m.decls[i1]
    };
    let x2 = DeclV {
        dtype: dtype_with_field_anno(m.decls[i2].dtype, f2, b.scoped_name, b.value),
        ..m.decls[i2]
    };
    assert(ma.decls == m.decls.update(i1, x1));
    assert(mb.decls == m.decls.update(i2, x2));
    lemma_decl_index_update(m.decls, i1, x1, d2);
    lemma_decl_index_update(m.decls, i2, x2, d1);
    if d1 != d2 {
        assert(i1 != i2);
        assert(ma.decls[i2] == m.decls[i2]);
        assert(mb.decls[i1] == m.decls[i1]);
        assert(bind_one(ma, b).decls =~= ma.decls.update(i2, x2));
        assert(bind_one(mb, a).decls =~= mb.decls.update(i1, x1));
        assert(ma.decls.update(i2, x2) =~= mb.decls.update(i1, x1));
        assert(bind_one(ma, b) =~= bind_one(mb, a));
    } else {
        assert(i1 == i2);
        assert(decl_fields_unique(m.decls[i1].dtype));
        assert(ma.decls[i1] == x1);
        assert(mb.decls[i1] == x2);
        let y1 = DeclV { dtype: dtype_with_field_anno(x1.dtype, f2, b.scoped_name, b.value), ..x1 };
        let y2 = DeclV { dtype: dtype_with_field_anno(x2.dtype, f1, a.scoped_name, a.value), ..x2 };
        assert(bind_one(ma, b).decls =~= ma.decls.update(i1, y1));
        assert(bind_one(mb, a).decls =~= mb.decls.update(i1, y2));
        match m.decls[i1].dtype {
            DeclTypeV::Struct { type_params, fields } => {
                lemma_fields_anno_commute(
                    fields,
                    f1,
                    a.scoped_name,
                    a.value,
                    f2,
                    b.scoped_name,
                    b.value,
                );
                assert(y1.dtype =~= y2.dtype);
            },
            DeclTypeV::Union { type_params, fields } => {
                lemma_fields_anno_commute(
                    fields,
                    f1,
                    a.scoped_name,
                    a.value,
                    f2,
                    b.scoped_name,
                    b.value,
                );
                assert(y1.dtype =~= y2.dtype);
            },
            _ => {
                assert(false);
            },
        }
        assert(y1 =~= y2);
        assert(ma.decls.update(i1, y1) =~= mb.decls.update(i1, y2));
        assert(bind_one(ma, b) =~= bind_one(mb, a));
    }
}

/// Landing two annotations on fields of one list commutes, when field
/// or key differ.
proof fn lemma_fields_anno_commute<R>(
    fields: Seq<FieldV<R>>,
    f1: Seq<char>,
    k1: ScopedNameV,
    v1: JsonValue,
    f2: Seq<char>,
    k2: ScopedNameV,
    v2: JsonValue,
)
    requires
        field_names_unique(fields),
        has_field_named(fields, f1),
        has_field_named(fields, f2),
        f1 != f2 || k1 != k2,
    ensures
        ({
            let j1 = field_index_of(fields, f1);
            let g1 = fields.update(
                j1,
                FieldV { annotations: fields[j1].annotations.insert(k1, v1), ..fields[j1] },
            );
            let j2b = field_index_of(g1, f2);
            let left = g1.update(
                j2b,
                FieldV { annotations: g1[j2b].annotations.insert(k2, v2), ..g1[j2b] },
            );
            let j2 = field_index_of(fields, f2);
            let g2 = fields.update(
                j2,
                FieldV { annotations: fields[j2].annotations.insert(k2, v2), ..fields[j2] },
            );
            let j1b = field_index_of(g2, f1);
            let right = g2.update(
                j1b,
                FieldV { annotations: g2[j1b].annotations.insert(k1, v1), ..g2[j1b] },
            );
            left =~= right
        }),
{
    let j1 = field_index_of(fields, f1);
    let j2 = field_index_of(fields, f2);
    let x1 = FieldV { annotations: fields[j1].annotations.insert(k1, v1), ..fields[j1] };
    let x2 = FieldV { annotations: fields[j2].annotations.insert(k2, v2), ..fields[j2] };
    let g1 = fields.update(j1, x1);
    let g2 = fields.update(j2, x2);
    lemma_field_index_update(fields, j1, x1, f2);
    lemma_field_index_update(fields, j2, x2, f1);
    if f1 == f2 {
        assert(j1 == j2);
        assert(k1 != k2);
        assert(g1[j1] == x1);
        assert(g2[j1] == x2);
        assert(x1.annotations.insert(k2, v2) =~= x2.annotations.insert(k1, v1));
        assert(g1.update(j1, FieldV { annotations: g1[j1].annotations.insert(k2, v2), ..g1[j1] })
            =~= g2.update(j1, FieldV {
            annotations: g2[j1].annotations.insert(k1, v1),
            ..g2[j1]
        }));
    } else {
        assert(j1 != j2);
        assert(g1[j2] == fields[j2]);
        assert(g2[j1] == fields[j1]);
        assert(g1.update(j2, FieldV { annotations: g1[j2].annotations.insert(k2, v2), ..g1[j2] })
            =~= g2.update(j1, FieldV {
            annotations: g2[j1].annotations.insert(k1, v1),
            ..g2[j1]
        }));
    }
}

/// One binding step commutes with another when they differ in target or
/// key, on a well-formed module.
proof fn lemma_bind_step_commutes<R>(m: ModuleV<R>, a: ExplicitAnnotationV, b: ExplicitAnnotationV)
    requires
        module_wf(m),
        (a.refr, a.scoped_name) != (b.refr, b.scoped_name),
    ensures
        bind_step(bind_step(m, a), b) == bind_step(bind_step(m, b), a),
{
    lemma_bind_step_skeleton(m, a);
    lemma_bind_step_skeleton(m, b);
    lemma_skeleton_target_ok(m, bind_step(m, a), b.refr);
    lemma_skeleton_target_ok(m, bind_step(m, b), a.refr);
    if ea_target_ok(m, a.refr) && ea_target_ok(m, b.refr) {
        lemma_bind_one_commutes(m, a, b);
    }
}

/// Binding any chosen record first, then the rest in order, gives the
/// same module as binding in order.
proof fn lemma_bind_pull_to_front<R>(m: ModuleV<R>, s: Seq<ExplicitAnnotationV>, k: int)
    requires
        module_wf(m),
        eas_distinct(s),
        0 <= k < s.len(),
    ensures
        bind_all(m, s) == bind_all(bind_step(m, s[k]), s.remove(k)),
    decreases k,
{
    if k == 0 {
        assert(s.remove(0) =~= s.drop_first());
    } else {
        let m1 = bind_step(m, s[0]);
        lemma_bind_step_skeleton(m, s[0]);
        lemma_skeleton_wf(m, m1);
        assert(eas_distinct(s.drop_first())) by {
            assert forall|i: int, j: int| 0 <= i < j < s.drop_first().len() implies ((
            #[trigger] s.drop_first()[i]).refr, s.drop_first()[i].scoped_name) != ((
            #[trigger] s.drop_first()[j]).refr, s.drop_first()[j].scoped_name) by {
                assert(s.drop_first()[i] == s[i + 1]);
                assert(s.drop_first()[j] == s[j + 1]);
            }
        }
        assert(s.drop_first()[k - 1] == s[k]);
        lemma_bind_pull_to_front(m1, s.drop_first(), k - 1);
        lemma_bind_step_commutes(m, s[0], s[k]);
        let m2 = bind_step(m, s[k]);
        lemma_bind_step_skeleton(m, s[k]);
        assert(bind_all(m, s) == bind_all(bind_step(m1, s[k]), s.drop_first().remove(k - 1)));
        assert(bind_step(m1, s[k]) == bind_step(m2, s[0]));
        assert(s.remove(k)[0] == s[0]);
        assert(s.remove(k).len() > 0);
        assert(s.remove(k).drop_first() =~= s.drop_first().remove(k - 1));
        assert(bind_all(m2, s.remove(k)) == bind_all(
            bind_step(m2, s[0]),
            s.remove(k).drop_first(),
        ));
    }
}

/// Binding is order-independent: on a well-formed module, two
/// explicit-annotation lists that are permutations of each other, with
/// pairwise-distinct target-and-key pairs, bind to the same module; and
/// the one list leaves nothing unresolved exactly when the other does.
pub proof fn lemma_binding_order_independent<R>(
    m: ModuleV<R>,
    s1: Seq<ExplicitAnnotationV>,
    s2: Seq<ExplicitAnnotationV>,
)
    requires
        module_wf(m),
        eas_distinct(s1),
        eas_distinct(s2),
        s1.to_multiset() == s2.to_multiset(),
    ensures
        bind_all(m, s1) == bind_all(m, s2),
        unresolved_refs(m, s1).len() == 0 <==> unresolved_refs(m, s2).len() == 0,
    decreases s1.len(),
{
    broadcast use vstd::seq_lib::group_to_multiset_ensures;

    lemma_unresolved_empty_iff(m, s1);
    lemma_unresolved_empty_iff(m, s2);
    assert((forall|i: int| 0 <= i < s1.len() ==> ea_target_ok(m, (#[trigger] s1[i]).refr))
        <==> (forall|j: int| 0 <= j < s2.len() ==> ea_target_ok(m, (#[trigger] s2[j]).refr))) by {
        if forall|i: int| 0 <= i < s1.len() ==> ea_target_ok(m, (#[trigger] s1[i]).refr) {
            assert forall|j: int| 0 <= j < s2.len() implies ea_target_ok(
                m,
                (#[trigger] s2[j]).refr,
            ) by {
                assert(s2.contains(s2[j]));
                assert(s2.to_multiset().count(s2[j]) > 0);
                assert(s1.to_multiset().count(s2[j]) > 0);
                assert(s1.contains(s2[j]));
                let w = choose|w: int| 0 <= w < s1.len() && s1[w] == s2[j];
                assert(ea_target_ok(m, s1[w].refr));
            }
        }
        if forall|j: int| 0 <= j < s2.len() ==> ea_target_ok(m, (#[trigger] s2[j]).refr) {
            assert forall|i: int| 0 <= i < s1.len() implies ea_target_ok(
                m,
                (#[trigger] s1[i]).refr,
            ) by {
                assert(s1.contains(s1[i]));
                assert(s1.to_multiset().count(s1[i]) > 0);
                assert(s2.to_multiset().count(s1[i]) > 0);
                assert(s2.contains(s1[i]));
                let w = choose|w: int| 0 <= w < s2.len() && s2[w] == s1[i];
                assert(ea_target_ok(m, s2[w].refr));
            }
        }
    }
    assert(s1.len() == s1.to_multiset().len());
    assert(s2.len() == s2.to_multiset().len());
    if s1.len() == 0 {
        assert(s2.len() == 0);
    } else {
        let e = s1[0];
        assert(s1.contains(e));
        assert(s1.to_multiset().count(e) > 0);
        assert(s2.to_multiset().count(e) > 0);
        assert(s2.contains(e));
        let k = choose|k: int| 0 <= k < s2.len() && s2[k] == e;
        lemma_bind_pull_to_front(m, s2, k);
        let m1 = bind_step(m, e);
        lemma_bind_step_skeleton(m, e);
        lemma_skeleton_wf(m, m1);
        assert(eas_distinct(s1.drop_first())) by {
            assert forall|i: int, j: int| 0 <= i < j < s1.drop_first().len() implies ((
            #[trigger] s1.drop_first()[i]).refr, s1.drop_first()[i].scoped_name) != ((
            #[trigger] s1.drop_first()[j]).refr, s1.drop_first()[j].scoped_name) by {
                assert(s1.drop_first()[i] == s1[i + 1]);
                assert(s1.drop_first()[j] == s1[j + 1]);
            }
        }
        assert(eas_distinct(s2.remove(k))) by {
            assert forall|i: int, j: int| 0 <= i < j < s2.remove(k).len() implies ((
            #[trigger] s2.remove(k)[i]).refr, s2.remove(k)[i].scoped_name) != ((
            #[trigger] s2.remove(k)[j]).refr, s2.remove(k)[j].scoped_name) by {
                let ii = if i < k {
                    i
                } else {
                    i + 1
                };
                let jj = if j < k {
                    j
                } else {
                    j + 1
                };
                assert(s2.remove(k)[i] == s2[ii]);
                assert(s2.remove(k)[j] == s2[jj]);
            }
        }
        assert(s1.drop_first() =~= s1.remove(0));
        assert(s1.remove(0).to_multiset() =~= s1.to_multiset().remove(e));
        assert(s2.remove(k).to_multiset() =~= s2.to_multiset().remove(e));
        // A module with the same skeleton is well-formed and keeps targets;
        // the tail lists are permutations of each other.
        lemma_binding_order_independent(m1, s1.drop_first(), s2.remove(k));
        assert(bind_all(m, s1) == bind_all(m1, s1.drop_first()));
    }
}

/// The unresolved list is empty exactly when every record's target
/// exists; emptiness therefore depends only on which records occur.
proof fn lemma_unresolved_empty_iff<R>(m: ModuleV<R>, s: Seq<ExplicitAnnotationV>)
    ensures
        unresolved_refs(m, s).len() == 0 <==> forall|i: int| 0 <= i < s.len() ==> ea_target_ok(
            m,
            (#[trigger] s[i]).refr,
        ),
    decreases s.len(),
{
    if s.len() > 0 {
        lemma_unresolved_empty_iff(m, s.drop_first());
        if unresolved_refs(m, s).len() == 0 {
            assert(ea_target_ok(m, s[0].refr));
            assert forall|i: int| 0 <= i < s.len() implies ea_target_ok(
                m,
                (#[trigger] s[i]).refr,
            ) by {
                if i > 0 {
                    assert(s.drop_first()[i - 1] == s[i]);
                }
            }
        }
        if forall|i: int| 0 <= i < s.len() ==> ea_target_ok(m, (#[trigger] s[i]).refr) {
            assert forall|i: int| 0 <= i < s.drop_first().len() implies ea_target_ok(
                m,
                (#[trigger] s.drop_first()[i]).refr,
            ) by {
                assert(s.drop_first()[i] == s[i + 1]);
            }
            assert(ea_target_ok(m, s[0].refr));
        }
    }
}

} // verus!
