use adl_resolver::annotations::apply_explicit_annotations;
use adl_resolver::ast::{
    Annotations, Decl, DeclType, ExplicitAnnotation, ExplicitAnnotationRef, Field, Import,
    JsonValue, Module, Module0, ModuleName, NewTypeDef, RawModule, ScopedName, StructDef, TypeDef,
    TypeExpr, TypeRef,
};
use adl_resolver::primitives::{prim_from_str, str_from_prim, PrimitiveType};
use adl_resolver::resolver::{AdlLoader, LoaderError, ResolveError, Resolver};

fn sn(m: &str, n: &str) -> ScopedName {
    ScopedName::new(m.to_string(), n.to_string())
}

fn no_annos() -> Annotations {
    Annotations(Vec::new())
}

fn annos(pairs: Vec<(ScopedName, JsonValue)>) -> Annotations {
    Annotations(pairs)
}

fn te(m: &str, n: &str) -> TypeExpr<ScopedName> {
    TypeExpr { type_ref: sn(m, n), parameters: Vec::new() }
}

fn field(name: &str, ty: TypeExpr<ScopedName>, an: Annotations) -> Field<ScopedName> {
    Field { name: name.to_string(), serialized_name: None, type_expr: ty, default: None, annotations: an }
}

fn struct_decl(name: &str, type_params: Vec<&str>, fields: Vec<Field<ScopedName>>, an: Annotations) -> Decl<ScopedName> {
    Decl {
        name: name.to_string(),
        version: None,
        dtype: DeclType::Struct(StructDef {
            type_params: type_params.into_iter().map(|s| s.to_string()).collect(),
            fields,
        }),
        annotations: an,
    }
}

fn module0(name: &str, imports: Vec<Import>, decls: Vec<Decl<ScopedName>>, an: Annotations) -> Module0 {
    Module { name: name.to_string(), imports, decls, annotations: an }
}

fn sys_annotations_module() -> RawModule {
    (
        module0(
            "sys.annotations",
            Vec::new(),
            vec![struct_decl("Doc", Vec::new(), vec![field("value", te("", "String"), no_annos())], no_annos())],
            no_annos(),
        ),
        Vec::new(),
    )
}

struct FnLoader(fn(&str) -> Result<Option<RawModule>, LoaderError>);

impl AdlLoader for FnLoader {
    fn load(&mut self, name: &ModuleName) -> Result<Option<RawModule>, LoaderError> {
        (self.0)(name.as_str())
    }
}

fn ok_adl_raw_module() -> RawModule {
    let m = module0(
        "X",
        Vec::new(),
        vec![struct_decl(
            "Y",
            Vec::new(),
            vec![field("z", te("", "Word64"), annos(vec![(sn("", "C"), JsonValue::Int(3))]))],
            annos(vec![(sn("", "B"), JsonValue::Int(2))]),
        )],
        annos(vec![(sn("", "A"), JsonValue::Int(1))]),
    );
    let eas = vec![
        ExplicitAnnotation {
            refr: ExplicitAnnotationRef::Module,
            scoped_name: sn("", "E"),
            value: JsonValue::Int(6),
        },
        ExplicitAnnotation {
            refr: ExplicitAnnotationRef::Decl("Y".to_string()),
            scoped_name: sn("", "F"),
            value: JsonValue::Int(7),
        },
        ExplicitAnnotation {
            refr: ExplicitAnnotationRef::Field(("Y".to_string(), "z".to_string())),
            scoped_name: sn("", "G"),
            value: JsonValue::Int(8),
        },
    ];
    (m, eas)
}

#[test]
fn explicit_annotations_ok() {
    let rm = ok_adl_raw_module();

    // We should have 3 explicit annotations to attach
    assert_eq!(rm.1.len(), 3);

    let m0 = apply_explicit_annotations(rm).unwrap();
    assert_eq!(m0.annotations.get(&sn("", "A")), Some(&JsonValue::Int(1)));
    assert_eq!(m0.annotations.get(&sn("", "E")), Some(&JsonValue::Int(6)));

    let decl = m0.decls.iter().find(|d| d.name == "Y").unwrap();
    assert_eq!(decl.annotations.get(&sn("", "B")), Some(&JsonValue::Int(2)));
    assert_eq!(decl.annotations.get(&sn("", "F")), Some(&JsonValue::Int(7)));

    let fld = if let DeclType::Struct(s) = &decl.dtype {
        s.fields.iter().find(|f| f.name == "z")
    } else {
        None
    }
    .unwrap();
    assert_eq!(fld.annotations.get(&sn("", "C")), Some(&JsonValue::Int(3)));
    assert_eq!(fld.annotations.get(&sn("", "G")), Some(&JsonValue::Int(8)));
}

#[test]
fn explicit_annotations_bad() {
    let m = module0(
        "X",
        Vec::new(),
        vec![struct_decl("Y", Vec::new(), vec![field("z", te("", "Word64"), no_annos())], no_annos())],
        no_annos(),
    );
    let eas = vec![
        ExplicitAnnotation {
            refr: ExplicitAnnotationRef::Decl("A".to_string()),
            scoped_name: sn("", "F"),
            value: JsonValue::Int(7),
        },
        ExplicitAnnotation {
            refr: ExplicitAnnotationRef::Field(("A".to_string(), "z".to_string())),
            scoped_name: sn("", "G"),
            value: JsonValue::Int(8),
        },
        ExplicitAnnotation {
            refr: ExplicitAnnotationRef::Field(("Y".to_string(), "q".to_string())),
            scoped_name: sn("", "G"),
            value: JsonValue::Int(9),
        },
    ];
    let rm = (m, eas);

    // We should have 3 explicit annotations to attach
    assert_eq!(rm.1.len(), 3);

    let err = apply_explicit_annotations(rm).unwrap_err();

    // All of which should have failed
    assert_eq!(err.unresolved.len(), 3);
    assert_eq!(err.unresolved[0], ExplicitAnnotationRef::Decl("A".to_string()));
    assert_eq!(
        err.unresolved[1],
        ExplicitAnnotationRef::Field(("A".to_string(), "z".to_string()))
    );
    assert_eq!(
        err.unresolved[2],
        ExplicitAnnotationRef::Field(("Y".to_string(), "q".to_string()))
    );
}

#[test]
fn field_annotation_into_alias_fails() {
    // Field targets only land in structs and unions: an alias has no fields.
    let m = module0(
        "X",
        Vec::new(),
        vec![Decl {
            name: "T".to_string(),
            version: None,
            dtype: DeclType::Type(TypeDef { type_params: Vec::new(), type_expr: te("", "Word64") }),
            annotations: no_annos(),
        }],
        no_annos(),
    );
    let eas = vec![ExplicitAnnotation {
        refr: ExplicitAnnotationRef::Field(("T".to_string(), "x".to_string())),
        scoped_name: sn("", "G"),
        value: JsonValue::Int(1),
    }];
    let err = apply_explicit_annotations((m, eas)).unwrap_err();
    assert_eq!(err.unresolved.len(), 1);
}

#[test]
fn binding_is_order_independent_on_distinct_keys() {
    let build = |swap: bool| {
        let m = module0(
            "X",
            Vec::new(),
            vec![struct_decl("Y", Vec::new(), vec![field("z", te("", "Word64"), no_annos())], no_annos())],
            no_annos(),
        );
        let a = ExplicitAnnotation {
            refr: ExplicitAnnotationRef::Module,
            scoped_name: sn("", "E"),
            value: JsonValue::Int(6),
        };
        let b = ExplicitAnnotation {
            refr: ExplicitAnnotationRef::Decl("Y".to_string()),
            scoped_name: sn("", "F"),
            value: JsonValue::Int(7),
        };
        let eas = if swap { vec![b, a] } else { vec![a, b] };
        apply_explicit_annotations((m, eas)).unwrap()
    };
    assert_eq!(build(false), build(true));
}

#[test]
fn binding_duplicate_key_last_wins() {
    let m = module0("X", Vec::new(), Vec::new(), no_annos());
    let mk = |v: i64| ExplicitAnnotation {
        refr: ExplicitAnnotationRef::Module,
        scoped_name: sn("", "E"),
        value: JsonValue::Int(v),
    };
    let m0 = apply_explicit_annotations((m, vec![mk(1), mk(2)])).unwrap();
    assert_eq!(m0.annotations.get(&sn("", "E")), Some(&JsonValue::Int(2)));
}

#[test]
fn primitive_table_round_trip() {
    let prims = [
        PrimitiveType::Int8,
        PrimitiveType::Int16,
        PrimitiveType::Int32,
        PrimitiveType::Int64,
        PrimitiveType::Word8,
        PrimitiveType::Word16,
        PrimitiveType::Word32,
        PrimitiveType::Word64,
        PrimitiveType::Bool,
        PrimitiveType::Void,
        PrimitiveType::Float,
        PrimitiveType::Double,
        PrimitiveType::Str,
        PrimitiveType::ByteVector,
        PrimitiveType::Vector,
        PrimitiveType::StringMap,
        PrimitiveType::Nullable,
        PrimitiveType::TypeToken,
        PrimitiveType::Json,
    ];
    for p in prims {
        let ident = str_from_prim(p);
        assert_eq!(prim_from_str(&ident.to_string()), Some(p));
    }
    assert_eq!(str_from_prim(PrimitiveType::Str), "String");
    assert_eq!(prim_from_str(&"Vector".to_string()), Some(PrimitiveType::Vector));
    assert_eq!(prim_from_str(&"NotAPrim".to_string()), None);
}

#[test]
fn cycle_detection() {
    fn load(name: &str) -> Result<Option<RawModule>, LoaderError> {
        match name {
            "sys.annotations" => Ok(Some(sys_annotations_module())),
            "P" => Ok(Some((
                module0("P", vec![Import::ModuleName("Q".to_string())], Vec::new(), Annotations(Vec::new())),
                Vec::new(),
            ))),
            "Q" => Ok(Some((
                module0("Q", vec![Import::ModuleName("P".to_string())], Vec::new(), Annotations(Vec::new())),
                Vec::new(),
            ))),
            _ => Ok(None),
        }
    }
    let mut resolver = Resolver::new(FnLoader(load));
    let err = resolver.add_module(&"P".to_string()).unwrap_err();
    match err {
        ResolveError::CircularModules(n) => assert!(n == "P" || n == "Q"),
        other => panic!("expected a cycle error, got {:?}", other),
    }
    assert!(resolver.get_module(&"P".to_string()).is_none());
    assert!(resolver.get_module(&"Q".to_string()).is_none());
}

#[test]
fn type_param_shadows_primitive() {
    fn load(name: &str) -> Result<Option<RawModule>, LoaderError> {
        match name {
            "sys.annotations" => Ok(Some(sys_annotations_module())),
            "M" => Ok(Some((
                module0(
                    "M",
                    Vec::new(),
                    vec![struct_decl("Box", vec!["Int32"], vec![field("x", te("", "Int32"), Annotations(Vec::new()))], Annotations(Vec::new()))],
                    Annotations(Vec::new()),
                ),
                Vec::new(),
            ))),
            _ => Ok(None),
        }
    }
    let mut resolver = Resolver::new(FnLoader(load));
    resolver.add_module(&"M".to_string()).unwrap();
    let m1 = resolver.get_module(&"M".to_string()).unwrap();
    let decl = m1.decls.iter().find(|d| d.name == "Box").unwrap();
    let fld = if let DeclType::Struct(s) = &decl.dtype { &s.fields[0] } else { panic!() };
    assert_eq!(fld.type_expr.type_ref, TypeRef::TypeParam("Int32".to_string()));
}

#[test]
fn cross_module_annotation_key() {
    fn load(name: &str) -> Result<Option<RawModule>, LoaderError> {
        match name {
            "sys.annotations" => Ok(Some(sys_annotations_module())),
            "M" => Ok(Some((
                module0(
                    "M",
                    Vec::new(),
                    vec![struct_decl(
                        "S",
                        Vec::new(),
                        vec![field("x", te("", "Word64"), Annotations(Vec::new()))],
                        Annotations(vec![(sn("", "Doc"), JsonValue::Str("hello".to_string()))]),
                    )],
                    Annotations(Vec::new()),
                ),
                Vec::new(),
            ))),
            _ => Ok(None),
        }
    }
    let mut resolver = Resolver::new(FnLoader(load));
    resolver.add_module(&"M".to_string()).unwrap();
    let m1 = resolver.get_module(&"M".to_string()).unwrap();
    let decl = m1.decls.iter().find(|d| d.name == "S").unwrap();
    assert_eq!(
        decl.annotations.get(&sn("sys.annotations", "Doc")),
        Some(&JsonValue::Str("hello".to_string()))
    );
}

#[test]
fn missing_qualified_decl() {
    fn load(name: &str) -> Result<Option<RawModule>, LoaderError> {
        match name {
            "sys.annotations" => Ok(Some(sys_annotations_module())),
            "sys.types" => Ok(Some((
                module0(
                    "sys.types",
                    Vec::new(),
                    vec![struct_decl("Pair", Vec::new(), Vec::new(), Annotations(Vec::new()))],
                    Annotations(Vec::new()),
                ),
                Vec::new(),
            ))),
            "M" => Ok(Some((
                module0(
                    "M",
                    vec![Import::ModuleName("sys.types".to_string())],
                    vec![struct_decl(
                        "S",
                        Vec::new(),
                        vec![field("x", te("sys.types", "Missing"), Annotations(Vec::new()))],
                        Annotations(Vec::new()),
                    )],
                    Annotations(Vec::new()),
                ),
                Vec::new(),
            ))),
            _ => Ok(None),
        }
    }
    let mut resolver = Resolver::new(FnLoader(load));
    let err = resolver.add_module(&"M".to_string()).unwrap_err();
    assert!(matches!(err, ResolveError::DeclNotFound));
    assert!(resolver.get_module(&"M".to_string()).is_none());
}

#[test]
fn local_name_not_found() {
    fn load(name: &str) -> Result<Option<RawModule>, LoaderError> {
        match name {
            "sys.annotations" => Ok(Some(sys_annotations_module())),
            "M" => Ok(Some((
                module0(
                    "M",
                    Vec::new(),
                    vec![struct_decl("S", Vec::new(), vec![field("x", te("", "Unknown"), Annotations(Vec::new()))], Annotations(Vec::new()))],
                    Annotations(Vec::new()),
                ),
                Vec::new(),
            ))),
            _ => Ok(None),
        }
    }
    let mut resolver = Resolver::new(FnLoader(load));
    let err = resolver.add_module(&"M".to_string()).unwrap_err();
    match err {
        ResolveError::LocalNotFound(n) => assert_eq!(n, "Unknown"),
        other => panic!("expected a local-not-found error, got {:?}", other),
    }
}

#[test]
fn module_not_found_and_load_failed() {
    fn load_missing(name: &str) -> Result<Option<RawModule>, LoaderError> {
        match name {
            "sys.annotations" => Ok(Some(sys_annotations_module())),
            _ => Ok(None),
        }
    }
    let mut resolver = Resolver::new(FnLoader(load_missing));
    let err = resolver.add_module(&"M".to_string()).unwrap_err();
    assert!(matches!(err, ResolveError::ModuleNotFound));

    fn load_fail(_name: &str) -> Result<Option<RawModule>, LoaderError> {
        Err(LoaderError)
    }
    let mut resolver2 = Resolver::new(FnLoader(load_fail));
    let err2 = resolver2.add_module(&"M".to_string()).unwrap_err();
    assert!(matches!(err2, ResolveError::LoadFailed));
}

#[test]
fn primitive_annotation_key_is_no_decl() {
    fn load(name: &str) -> Result<Option<RawModule>, LoaderError> {
        match name {
            "sys.annotations" => Ok(Some(sys_annotations_module())),
            "M" => Ok(Some((
                module0(
                    "M",
                    Vec::new(),
                    vec![struct_decl(
                        "S",
                        Vec::new(),
                        Vec::new(),
                        Annotations(vec![(sn("", "Int32"), JsonValue::Null)]),
                    )],
                    Annotations(Vec::new()),
                ),
                Vec::new(),
            ))),
            _ => Ok(None),
        }
    }
    let mut resolver = Resolver::new(FnLoader(load));
    let err = resolver.add_module(&"M".to_string()).unwrap_err();
    assert!(matches!(err, ResolveError::NoDeclForAnnotation));
}

#[test]
fn resolved_modules_are_the_reachable_ones() {
    // After resolving M, the held modules are exactly M, its imports,
    // the modules its references name, and the implicit sys.annotations.
    fn load(name: &str) -> Result<Option<RawModule>, LoaderError> {
        match name {
            "sys.annotations" => Ok(Some(sys_annotations_module())),
            "A" => Ok(Some((
                module0(
                    "A",
                    vec![Import::ModuleName("B".to_string())],
                    vec![struct_decl("S", Vec::new(), vec![field("x", te("C", "T"), Annotations(Vec::new()))], Annotations(Vec::new()))],
                    Annotations(Vec::new()),
                ),
                Vec::new(),
            ))),
            "B" => Ok(Some((
                module0("B", Vec::new(), vec![struct_decl("U", Vec::new(), Vec::new(), Annotations(Vec::new()))], Annotations(Vec::new())),
                Vec::new(),
            ))),
            "C" => Ok(Some((
                module0("C", Vec::new(), vec![struct_decl("T", Vec::new(), Vec::new(), Annotations(Vec::new()))], Annotations(Vec::new())),
                Vec::new(),
            ))),
            "Unrelated" => Ok(Some((
                module0("Unrelated", Vec::new(), Vec::new(), Annotations(Vec::new())),
                Vec::new(),
            ))),
            _ => Ok(None),
        }
    }
    let mut resolver = Resolver::new(FnLoader(load));
    resolver.add_module(&"A".to_string()).unwrap();
    let mut names = resolver.get_module_names();
    names.sort();
    assert_eq!(names, vec!["A", "B", "C", "sys.annotations"]);
}

#[test]
fn get_decl_finds_qualified_names() {
    fn load(name: &str) -> Result<Option<RawModule>, LoaderError> {
        match name {
            "sys.annotations" => Ok(Some(sys_annotations_module())),
            "M" => Ok(Some((
                module0(
                    "M",
                    Vec::new(),
                    vec![struct_decl("S", Vec::new(), Vec::new(), Annotations(Vec::new()))],
                    Annotations(Vec::new()),
                ),
                Vec::new(),
            ))),
            _ => Ok(None),
        }
    }
    let mut resolver = Resolver::new(FnLoader(load));
    resolver.add_module(&"M".to_string()).unwrap();
    let d = resolver.get_decl(&sn("M", "S")).unwrap();
    assert_eq!(d.name, "S");
    assert!(resolver.get_decl(&sn("M", "Missing")).is_none());
    assert!(resolver.get_decl(&sn("Nowhere", "S")).is_none());
}

#[test]
fn imports_and_local_shadowing() {
    // A local declaration shadows an imported one of the same name; a
    // newtype body resolves under its own type parameters.
    fn load(name: &str) -> Result<Option<RawModule>, LoaderError> {
        match name {
            "sys.annotations" => Ok(Some(sys_annotations_module())),
            "Lib" => Ok(Some((
                module0(
                    "Lib",
                    Vec::new(),
                    vec![
                        struct_decl("Shared", Vec::new(), Vec::new(), Annotations(Vec::new())),
                        struct_decl("Only", Vec::new(), Vec::new(), Annotations(Vec::new())),
                    ],
                    Annotations(Vec::new()),
                ),
                Vec::new(),
            ))),
            "M" => Ok(Some((
                module0(
                    "M",
                    vec![Import::ModuleName("Lib".to_string())],
                    vec![
                        struct_decl("Shared", Vec::new(), Vec::new(), Annotations(Vec::new())),
                        Decl {
                            name: "N".to_string(),
                            version: None,
                            dtype: DeclType::Newtype(NewTypeDef {
                                type_params: vec!["T".to_string()],
                                type_expr: te("", "T"),
                                default: None,
                            }),
                            annotations: Annotations(Vec::new()),
                        },
                        struct_decl(
                            "Uses",
                            Vec::new(),
                            vec![
                                field("a", te("", "Shared"), Annotations(Vec::new())),
                                field("b", te("", "Only"), Annotations(Vec::new())),
                            ],
                            Annotations(Vec::new()),
                        ),
                    ],
                    Annotations(Vec::new()),
                ),
                Vec::new(),
            ))),
            _ => Ok(None),
        }
    }
    let mut resolver = Resolver::new(FnLoader(load));
    resolver.add_module(&"M".to_string()).unwrap();
    let m1 = resolver.get_module(&"M".to_string()).unwrap();
    let uses = m1.decls.iter().find(|d| d.name == "Uses").unwrap();
    let fields = if let DeclType::Struct(s) = &uses.dtype { &s.fields } else { panic!() };
    assert_eq!(fields[0].type_expr.type_ref, TypeRef::LocalName("Shared".to_string()));
    assert_eq!(fields[1].type_expr.type_ref, TypeRef::ScopedName(sn("Lib", "Only")));
    let n = m1.decls.iter().find(|d| d.name == "N").unwrap();
    let nt = if let DeclType::Newtype(nt) = &n.dtype { nt } else { panic!() };
    assert_eq!(nt.type_expr.type_ref, TypeRef::TypeParam("T".to_string()));
}

#[test]
fn add_module_twice_is_ok_and_stable() {
    fn load(name: &str) -> Result<Option<RawModule>, LoaderError> {
        match name {
            "sys.annotations" => Ok(Some(sys_annotations_module())),
            "M" => Ok(Some((
                module0(
                    "M",
                    Vec::new(),
                    vec![struct_decl("S", Vec::new(), Vec::new(), Annotations(Vec::new()))],
                    Annotations(Vec::new()),
                ),
                Vec::new(),
            ))),
            _ => Ok(None),
        }
    }
    let mut resolver = Resolver::new(FnLoader(load));
    resolver.add_module(&"M".to_string()).unwrap();
    let mut before = resolver.get_module_names();
    // A second request for a resolved module succeeds without loading.
    resolver.add_module(&"M".to_string()).unwrap();
    let mut after = resolver.get_module_names();
    before.sort();
    after.sort();
    assert_eq!(before, after);
}

#[test]
fn empty_import_name_is_a_load_failure() {
    fn load(name: &str) -> Result<Option<RawModule>, LoaderError> {
        match name {
            "sys.annotations" => Ok(Some(sys_annotations_module())),
            "M" => Ok(Some((
                module0(
                    "M",
                    vec![Import::ModuleName(String::new())],
                    Vec::new(),
                    Annotations(Vec::new()),
                ),
                Vec::new(),
            ))),
            _ => Ok(None),
        }
    }
    let mut resolver = Resolver::new(FnLoader(load));
    let err = resolver.add_module(&"M".to_string()).unwrap_err();
    assert!(matches!(err, ResolveError::LoadFailed));
}
