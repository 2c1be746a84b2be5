//! The schema registry: schema fragments for types, and a map of named
//! definitions through which recursive types refer to themselves.
use vstd::prelude::*;
use vstd::string::StringExecFns;

use crate::json::{
    has_key, index_of_key, lemma_array_view, models_of, put, JsonMap, JsonModel, JsonValue,
};

verus! {

/// The named definitions: from a type's name to its schema.
pub type SchemaDefs = JsonMap;

/// The object with the one entry `key: value`.
pub open spec fn object1(key: Seq<char>, value: JsonModel) -> JsonModel {
    JsonModel::Object(put(Seq::empty(), key, value))
}

/// The object with the two entries `k1: v1` and `k2: v2`.
pub open spec fn object2(k1: Seq<char>, v1: JsonModel, k2: Seq<char>, v2: JsonModel) -> JsonModel {
    JsonModel::Object(put(put(Seq::empty(), k1, v1), k2, v2))
}

/// The fragment `{"type": name}`.
pub open spec fn type_schema(name: Seq<char>) -> JsonModel {
    object1("type"@, JsonModel::String(name))
}

/// The fragment `{"items": items, "type": "array"}`.
pub open spec fn array_schema(items: JsonModel) -> JsonModel {
    object2("type"@, JsonModel::String("array"@), "items"@, items)
}

/// The fragment `{"anyOf": [{"type": "null"}, inner]}`.
pub open spec fn optional_schema(inner: JsonModel) -> JsonModel {
    object1("anyOf"@, JsonModel::Array(seq![type_schema("null"@), inner]))
}

/// The path under which the definition of the type `name` is referred to.
pub open spec fn definition_path(name: Seq<char>) -> Seq<char> {
    "#/definitions/"@ + name
}

/// The reference `{"$ref": "#/definitions/<name>"}`.
pub open spec fn reference(name: Seq<char>) -> JsonModel {
    object1("$ref"@, JsonModel::String(definition_path(name)))
}

/// The value under `key`, if an entry has that key.
pub open spec fn lookup(entries: Seq<(Seq<char>, JsonModel)>, key: Seq<char>) -> Option<JsonModel> {
    if has_key(entries, key) {
        Some(entries[index_of_key(entries, key)].1)
    } else {
        None
    }
}

/// The document for a root schema and the definitions gathered with it: a
/// root that is a reference is joined with the definitions, any other root
/// stands alone.
pub open spec fn document_model(root: JsonModel, defs: Seq<(Seq<char>, JsonModel)>) -> JsonModel {
    match root {
        JsonModel::Object(entries) => match lookup(entries, "$ref"@) {
            Some(JsonModel::String(path)) => object2(
                "$ref"@,
                JsonModel::String(path),
                "definitions"@,
                JsonModel::Object(defs),
            ),
            _ => root,
        },
        _ => root,
    }
}

/// A type that can describe itself as a schema.
pub trait RegisterSchema {
    /// The schema that the type hands back when the definitions are `defs`.
    /// An impl states it; where it does not, nothing is known of it.
    open spec fn schema_of(defs: Seq<(Seq<char>, JsonModel)>) -> JsonModel {
        arbitrary()
    }

    /// The definitions after the type has registered what it has to, from `defs`.
    /// An impl states it; where it does not, nothing is known of it.
    open spec fn defs_after(defs: Seq<(Seq<char>, JsonModel)>) -> Seq<(Seq<char>, JsonModel)> {
        arbitrary()
    }

    /// Hands back the type's schema and adds to `defs` the definitions that it refers to.
    fn register_schema(defs: &mut SchemaDefs) -> (schema: JsonValue)
        ensures
            schema@ == Self::schema_of(old(defs)@),
            final(defs)@ == Self::defs_after(old(defs)@),
    ;
}

/// The object with the one entry `key: value`.
pub fn single(key: &str, value: JsonValue) -> (r: JsonValue)
    ensures
        r@ == object1(key@, value@),
{
    let mut dict = JsonMap::new();
    dict.insert(String::from_str(key), value);
    JsonValue::Object(dict)
}

/// The fragment `{"type": name}`.
pub fn type_fragment(name: &str) -> (r: JsonValue)
    ensures
        r@ == type_schema(name@),
{
    single("type", JsonValue::String(String::from_str(name)))
}

/// The reference to the definition of the type `name`.
pub fn definition_ref(name: &str) -> (r: JsonValue)
    ensures
        r@ == reference(name@),
{
    let mut path = String::from_str("#/definitions/");
    path.append(name);
    single("$ref", JsonValue::String(path))
}

/// Opens the definition of the type `name`: where the definitions do not
/// hold the name yet, it is entered with `null` in place of the schema, and
/// the caller has the schema to build; where they hold it, nothing changes.
pub fn begin_definition(defs: &mut SchemaDefs, name: &str) -> (fresh: bool)
    ensures
        fresh == !has_key(old(defs)@, name@),
        final(defs)@ == if fresh {
            put(old(defs)@, name@, JsonModel::Null)
        } else {
            old(defs)@
        },
{
    if defs.contains_key(name) {
        false
    } else {
        defs.insert(String::from_str(name), JsonValue::Null);
        true
    }
}

/// Closes the definition of the type `name`: `body` takes the place of what
/// the definitions held under the name, and the reference to it is handed back.
pub fn finish_definition(defs: &mut SchemaDefs, name: &str, body: JsonValue) -> (r: JsonValue)
    ensures
        final(defs)@ == put(old(defs)@, name@, body@),
        r@ == reference(name@),
{
    defs.insert(String::from_str(name), body);
    definition_ref(name)
}

/// Joins a root schema and the definitions gathered with it into one document.
pub fn schema_document(root: JsonValue, defs: SchemaDefs) -> (doc: JsonValue)
    ensures
        doc@ == document_model(root@, defs@),
{
    let path = match &root {
        JsonValue::Object(dict) => match dict.get("$ref") {
            Some(JsonValue::String(path)) => Some(path.clone()),
            _ => None,
        },
        _ => None,
    };
    match path {
        Some(path) => {
            let mut dict = JsonMap::new();
            dict.insert(String::from_str("$ref"), JsonValue::String(path));
            dict.insert(String::from_str("definitions"), JsonValue::Object(defs));
            JsonValue::Object(dict)
        },
        None => root,
    }
}

impl RegisterSchema for () {
    open spec fn schema_of(defs: Seq<(Seq<char>, JsonModel)>) -> JsonModel {
        type_schema("null"@)
    }

    open spec fn defs_after(defs: Seq<(Seq<char>, JsonModel)>) -> Seq<(Seq<char>, JsonModel)> {
        defs
    }

    fn register_schema(_defs: &mut SchemaDefs) -> (schema: JsonValue) {
        type_fragment("null")
    }
}

impl RegisterSchema for String {
    open spec fn schema_of(defs: Seq<(Seq<char>, JsonModel)>) -> JsonModel {
        type_schema("string"@)
    }

    open spec fn defs_after(defs: Seq<(Seq<char>, JsonModel)>) -> Seq<(Seq<char>, JsonModel)> {
        defs
    }

    fn register_schema(_defs: &mut SchemaDefs) -> (schema: JsonValue) {
        type_fragment("string")
    }
}

impl RegisterSchema for bool {
    open spec fn schema_of(defs: Seq<(Seq<char>, JsonModel)>) -> JsonModel {
        type_schema("boolean"@)
    }

    open spec fn defs_after(defs: Seq<(Seq<char>, JsonModel)>) -> Seq<(Seq<char>, JsonModel)> {
        defs
    }

    fn register_schema(_defs: &mut SchemaDefs) -> (schema: JsonValue) {
        type_fragment("boolean")
    }
}

impl<T: RegisterSchema> RegisterSchema for Vec<T> {
    open spec fn schema_of(defs: Seq<(Seq<char>, JsonModel)>) -> JsonModel {
        array_schema(T::schema_of(defs))
    }

    open spec fn defs_after(defs: Seq<(Seq<char>, JsonModel)>) -> Seq<(Seq<char>, JsonModel)> {
        T::defs_after(defs)
    }

    fn register_schema(defs: &mut SchemaDefs) -> (schema: JsonValue) {
        let items = T::register_schema(defs);
        let mut dict = JsonMap::new();
        dict.insert(String::from_str("type"), JsonValue::String(String::from_str("array")));
        dict.insert(String::from_str("items"), items);
        JsonValue::Object(dict)
    }
}

impl<T: RegisterSchema> RegisterSchema for Option<T> {
    open spec fn schema_of(defs: Seq<(Seq<char>, JsonModel)>) -> JsonModel {
        optional_schema(T::schema_of(defs))
    }

    open spec fn defs_after(defs: Seq<(Seq<char>, JsonModel)>) -> Seq<(Seq<char>, JsonModel)> {
        T::defs_after(defs)
    }

    fn register_schema(defs: &mut SchemaDefs) -> (schema: JsonValue) {
        let inner = T::register_schema(defs);
        let mut choices: Vec<JsonValue> = Vec::new();
        choices.push(type_fragment("null"));
        choices.push(inner);
        proof {
            lemma_array_view(choices);
            assert(models_of(choices@) =~= seq![type_schema("null"@), inner@]);
        }
        single("anyOf", JsonValue::Array(choices))
    }
}

impl<T: RegisterSchema> RegisterSchema for Box<T> {
    open spec fn schema_of(defs: Seq<(Seq<char>, JsonModel)>) -> JsonModel {
        T::schema_of(defs)
    }

    open spec fn defs_after(defs: Seq<(Seq<char>, JsonModel)>) -> Seq<(Seq<char>, JsonModel)> {
        T::defs_after(defs)
    }

    fn register_schema(defs: &mut SchemaDefs) -> (schema: JsonValue) {
        T::register_schema(defs)
    }
}

impl RegisterSchema for u8 {
    open spec fn schema_of(defs: Seq<(Seq<char>, JsonModel)>) -> JsonModel {
        type_schema("integer"@)
    }

    open spec fn defs_after(defs: Seq<(Seq<char>, JsonModel)>) -> Seq<(Seq<char>, JsonModel)> {
        defs
    }

    fn register_schema(_defs: &mut SchemaDefs) -> (schema: JsonValue) {
        type_fragment("integer")
    }
}

impl RegisterSchema for u16 {
    open spec fn schema_of(defs: Seq<(Seq<char>, JsonModel)>) -> JsonModel {
        type_schema("integer"@)
    }

    open spec fn defs_after(defs: Seq<(Seq<char>, JsonModel)>) -> Seq<(Seq<char>, JsonModel)> {
        defs
    }

    fn register_schema(_defs: &mut SchemaDefs) -> (schema: JsonValue) {
        type_fragment("integer")
    }
}

impl RegisterSchema for u32 {
    open spec fn schema_of(defs: Seq<(Seq<char>, JsonModel)>) -> JsonModel {
        type_schema("integer"@)
    }

    open spec fn defs_after(defs: Seq<(Seq<char>, JsonModel)>) -> Seq<(Seq<char>, JsonModel)> {
        defs
    }

    fn register_schema(_defs: &mut SchemaDefs) -> (schema: JsonValue) {
        type_fragment("integer")
    }
}

impl RegisterSchema for u64 {
    open spec fn schema_of(defs: Seq<(Seq<char>, JsonModel)>) -> JsonModel {
        type_schema("integer"@)
    }

    open spec fn defs_after(defs: Seq<(Seq<char>, JsonModel)>) -> Seq<(Seq<char>, JsonModel)> {
        defs
    }

    fn register_schema(_defs: &mut SchemaDefs) -> (schema: JsonValue) {
        type_fragment("integer")
    }
}

impl RegisterSchema for u128 {
    open spec fn schema_of(defs: Seq<(Seq<char>, JsonModel)>) -> JsonModel {
        type_schema("integer"@)
    }

    open spec fn defs_after(defs: Seq<(Seq<char>, JsonModel)>) -> Seq<(Seq<char>, JsonModel)> {
        defs
    }

    fn register_schema(_defs: &mut SchemaDefs) -> (schema: JsonValue) {
        type_fragment("integer")
    }
}

impl RegisterSchema for usize {
    open spec fn schema_of(defs: Seq<(Seq<char>, JsonModel)>) -> JsonModel {
        type_schema("integer"@)
    }

    open spec fn defs_after(defs: Seq<(Seq<char>, JsonModel)>) -> Seq<(Seq<char>, JsonModel)> {
        defs
    }

    fn register_schema(_defs: &mut SchemaDefs) -> (schema: JsonValue) {
        type_fragment("integer")
    }
}

impl RegisterSchema for i8 {
    open spec fn schema_of(defs: Seq<(Seq<char>, JsonModel)>) -> JsonModel {
        type_schema("integer"@)
    }

    open spec fn defs_after(defs: Seq<(Seq<char>, JsonModel)>) -> Seq<(Seq<char>, JsonModel)> {
        defs
    }

    fn register_schema(_defs: &mut SchemaDefs) -> (schema: JsonValue) {
        type_fragment("integer")
    }
}

impl RegisterSchema for i16 {
    open spec fn schema_of(defs: Seq<(Seq<char>, JsonModel)>) -> JsonModel {
        type_schema("integer"@)
    }

    open spec fn defs_after(defs: Seq<(Seq<char>, JsonModel)>) -> Seq<(Seq<char>, JsonModel)> {
        defs
    }

    fn register_schema(_defs: &mut SchemaDefs) -> (schema: JsonValue) {
        type_fragment("integer")
    }
}

impl RegisterSchema for i32 {
    open spec fn schema_of(defs: Seq<(Seq<char>, JsonModel)>) -> JsonModel {
        type_schema("integer"@)
    }

    open spec fn defs_after(defs: Seq<(Seq<char>, JsonModel)>) -> Seq<(Seq<char>, JsonModel)> {
        defs
    }

    fn register_schema(_defs: &mut SchemaDefs) -> (schema: JsonValue) {
        type_fragment("integer")
    }
}

impl RegisterSchema for i64 {
    open spec fn schema_of(defs: Seq<(Seq<char>, JsonModel)>) -> JsonModel {
        type_schema("integer"@)
    }

    open spec fn defs_after(defs: Seq<(Seq<char>, JsonModel)>) -> Seq<(Seq<char>, JsonModel)> {
        defs
    }

    fn register_schema(_defs: &mut SchemaDefs) -> (schema: JsonValue) {
        type_fragment("integer")
    }
}

impl RegisterSchema for i128 {
    open spec fn schema_of(defs: Seq<(Seq<char>, JsonModel)>) -> JsonModel {
        type_schema("integer"@)
    }

    open spec fn defs_after(defs: Seq<(Seq<char>, JsonModel)>) -> Seq<(Seq<char>, JsonModel)> {
        defs
    }

    fn register_schema(_defs: &mut SchemaDefs) -> (schema: JsonValue) {
        type_fragment("integer")
    }
}

impl RegisterSchema for isize {
    open spec fn schema_of(defs: Seq<(Seq<char>, JsonModel)>) -> JsonModel {
        type_schema("integer"@)
    }

    open spec fn defs_after(defs: Seq<(Seq<char>, JsonModel)>) -> Seq<(Seq<char>, JsonModel)> {
        defs
    }

    fn register_schema(_defs: &mut SchemaDefs) -> (schema: JsonValue) {
        type_fragment("integer")
    }
}

} // verus!
