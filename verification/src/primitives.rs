//! The table of reserved primitive type identifiers.
//!
//! The mapping between reserved identifiers and primitive tokens is
//! bidirectional: `prim_from_str` and `str_from_prim` are inverse to each
//! other, which `lemma_prim_table_bijective` states and proves.

use vstd::prelude::*;

verus! {

/// A built-in primitive type of the language.
#[derive(Clone, Copy, PartialEq, Eq, Structural, Debug)]
pub enum PrimitiveType {
    Int8,
    Int16,
    Int32,
    Int64,
    Word8,
    Word16,
    Word32,
    Word64,
    Bool,
    Void,
    Float,
    Double,
    Str,
    ByteVector,
    Vector,
    StringMap,
    Nullable,
    TypeToken,
    Json,
}

/// The reserved identifier that denotes each primitive.
pub open spec fn prim_ident(p: PrimitiveType) -> Seq<char> {
    match p {
        PrimitiveType::Int8 => "Int8"@,
        PrimitiveType::Int16 => "Int16"@,
        PrimitiveType::Int32 => "Int32"@,
        PrimitiveType::Int64 => "Int64"@,
        PrimitiveType::Word8 => "Word8"@,
        PrimitiveType::Word16 => "Word16"@,
        PrimitiveType::Word32 => "Word32"@,
        PrimitiveType::Word64 => "Word64"@,
        PrimitiveType::Bool => "Bool"@,
        PrimitiveType::Void => "Void"@,
        PrimitiveType::Float => "Float"@,
        PrimitiveType::Double => "Double"@,
        PrimitiveType::Str => "String"@,
        PrimitiveType::ByteVector => "ByteVector"@,
        PrimitiveType::Vector => "Vector"@,
        PrimitiveType::StringMap => "StringMap"@,
        PrimitiveType::Nullable => "Nullable"@,
        PrimitiveType::TypeToken => "TypeToken"@,
        PrimitiveType::Json => "Json"@,
    }
}

/// The primitive denoted by an identifier, if it is reserved.
pub open spec fn prim_from_ident(s: Seq<char>) -> Option<PrimitiveType> {
    if s == "Int8"@ {
        Some(PrimitiveType::Int8)
    } else if s == "Int16"@ {
        Some(PrimitiveType::Int16)
    } else if s == "Int32"@ {
        Some(PrimitiveType::Int32)
    } else if s == "Int64"@ {
        Some(PrimitiveType::Int64)
    } else if s == "Word8"@ {
        Some(PrimitiveType::Word8)
    } else if s == "Word16"@ {
        Some(PrimitiveType::Word16)
    } else if s == "Word32"@ {
        Some(PrimitiveType::Word32)
    } else if s == "Word64"@ {
        Some(PrimitiveType::Word64)
    } else if s == "Bool"@ {
        Some(PrimitiveType::Bool)
    } else if s == "Void"@ {
        Some(PrimitiveType::Void)
    } else if s == "Float"@ {
        Some(PrimitiveType::Float)
    } else if s == "Double"@ {
        Some(PrimitiveType::Double)
    } else if s == "String"@ {
        Some(PrimitiveType::Str)
    } else if s == "ByteVector"@ {
        Some(PrimitiveType::ByteVector)
    } else if s == "Vector"@ {
        Some(PrimitiveType::Vector)
    } else if s == "StringMap"@ {
        Some(PrimitiveType::StringMap)
    } else if s == "Nullable"@ {
        Some(PrimitiveType::Nullable)
    } else if s == "TypeToken"@ {
        Some(PrimitiveType::TypeToken)
    } else if s == "Json"@ {
        Some(PrimitiveType::Json)
    } else {
        None
    }
}

/// Classifies an identifier: `Some(p)` exactly when it is a reserved
/// primitive identifier.
pub fn prim_from_str(s: &String) -> (r: Option<PrimitiveType>)
    ensures
        r == prim_from_ident(s@),
{
    if *s == "Int8".to_string() {
        Some(PrimitiveType::Int8)
    } else if *s == "Int16".to_string() {
        Some(PrimitiveType::Int16)
    } else if *s == "Int32".to_string() {
        Some(PrimitiveType::Int32)
    } else if *s == "Int64".to_string() {
        Some(PrimitiveType::Int64)
    } else if *s == "Word8".to_string() {
        Some(PrimitiveType::Word8)
    } else if *s == "Word16".to_string() {
        Some(PrimitiveType::Word16)
    } else if *s == "Word32".to_string() {
        Some(PrimitiveType::Word32)
    } else if *s == "Word64".to_string() {
        Some(PrimitiveType::Word64)
    } else if *s == "Bool".to_string() {
        Some(PrimitiveType::Bool)
    } else if *s == "Void".to_string() {
        Some(PrimitiveType::Void)
    } else if *s == "Float".to_string() {
        Some(PrimitiveType::Float)
    } else if *s == "Double".to_string() {
        Some(PrimitiveType::Double)
    } else if *s == "String".to_string() {
        Some(PrimitiveType::Str)
    } else if *s == "ByteVector".to_string() {
        Some(PrimitiveType::ByteVector)
    } else if *s == "Vector".to_string() {
        Some(PrimitiveType::Vector)
    } else if *s == "StringMap".to_string() {
        Some(PrimitiveType::StringMap)
    } else if *s == "Nullable".to_string() {
        Some(PrimitiveType::Nullable)
    } else if *s == "TypeToken".to_string() {
        Some(PrimitiveType::TypeToken)
    } else if *s == "Json".to_string() {
        Some(PrimitiveType::Json)
    } else {
        None
    }
}

/// The reserved identifier of a primitive.
pub fn str_from_prim(p: PrimitiveType) -> (r: &'static str)
    ensures
        r@ == prim_ident(p),
{
    match p {
        PrimitiveType::Int8 => "Int8",
        PrimitiveType::Int16 => "Int16",
        PrimitiveType::Int32 => "Int32",
        PrimitiveType::Int64 => "Int64",
        PrimitiveType::Word8 => "Word8",
        PrimitiveType::Word16 => "Word16",
        PrimitiveType::Word32 => "Word32",
        PrimitiveType::Word64 => "Word64",
        PrimitiveType::Bool => "Bool",
        PrimitiveType::Void => "Void",
        PrimitiveType::Float => "Float",
        PrimitiveType::Double => "Double",
        PrimitiveType::Str => "String",
        PrimitiveType::ByteVector => "ByteVector",
        PrimitiveType::Vector => "Vector",
        PrimitiveType::StringMap => "StringMap",
        PrimitiveType::Nullable => "Nullable",
        PrimitiveType::TypeToken => "TypeToken",
        PrimitiveType::Json => "Json",
    }
}

/// The primitive table is bijective: reading back the identifier of any
/// primitive yields that primitive, and identifiers of distinct primitives
/// differ.
#[verifier::rlimit(100)]
pub proof fn lemma_prim_table_bijective(p: PrimitiveType, q: PrimitiveType)
    ensures
        prim_from_ident(prim_ident(p)) == Some(p),
        p != q ==> prim_ident(p) != prim_ident(q),
{
    reveal_strlit("Int8");
    reveal_strlit("Int16");
    reveal_strlit("Int32");
    reveal_strlit("Int64");
    reveal_strlit("Word8");
    reveal_strlit("Word16");
    reveal_strlit("Word32");
    reveal_strlit("Word64");
    reveal_strlit("Bool");
    reveal_strlit("Void");
    reveal_strlit("Float");
    reveal_strlit("Double");
    reveal_strlit("String");
    reveal_strlit("ByteVector");
    reveal_strlit("Vector");
    reveal_strlit("StringMap");
    reveal_strlit("Nullable");
    reveal_strlit("TypeToken");
    reveal_strlit("Json");
    assert("Int8"@.len() == 4);
    assert("Int16"@.len() == 5);
    assert("Int32"@.len() == 5);
    assert("Int64"@.len() == 5);
    assert("Word8"@.len() == 5);
    assert("Word16"@.len() == 6);
    assert("Word32"@.len() == 6);
    assert("Word64"@.len() == 6);
    assert("Bool"@.len() == 4);
    assert("Void"@.len() == 4);
    assert("Float"@.len() == 5);
    assert("Double"@.len() == 6);
    assert("String"@.len() == 6);
    assert("ByteVector"@.len() == 10);
    assert("Vector"@.len() == 6);
    assert("StringMap"@.len() == 9);
    assert("Nullable"@.len() == 8);
    assert("TypeToken"@.len() == 9);
    assert("Json"@.len() == 4);
    assert("Int8"@[0] == 'I');
    assert("Int16"@[0] == 'I');
    assert("Int32"@[0] == 'I');
    assert("Int64"@[0] == 'I');
    assert("Word8"@[0] == 'W');
    assert("Word16"@[0] == 'W');
    assert("Word32"@[0] == 'W');
    assert("Word64"@[0] == 'W');
    assert("Bool"@[0] == 'B');
    assert("Void"@[0] == 'V');
    assert("Float"@[0] == 'F');
    assert("Double"@[0] == 'D');
    assert("String"@[0] == 'S');
    assert("ByteVector"@[0] == 'B');
    assert("Vector"@[0] == 'V');
    assert("StringMap"@[0] == 'S');
    assert("Nullable"@[0] == 'N');
    assert("TypeToken"@[0] == 'T');
    assert("Json"@[0] == 'J');
    assert("Int16"@[3] == '1');
    assert("Int32"@[3] == '3');
    assert("Int64"@[3] == '6');
    assert("Word16"@[4] == '1');
    assert("Word32"@[4] == '3');
    assert("Word64"@[4] == '6');
}

} // verus!
