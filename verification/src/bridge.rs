//! What the language bindings share: machine-readable error codes and the
//! hex text of opaque pagination tokens.
use vstd::prelude::*;

pub mod parse;
pub mod value;
use vstd::utf8::is_char_boundary;
use crate::domain::error::{DbError, validation};
use crate::domain::text::{ascii_bytes, ascii_string, utf8};
use crate::domain::attribute::Item;
use crate::domain::table::TableDef;
use crate::application::usecases::{
    self as uc, Codec, ExprInput, KeyRef, Page, QueryOptions, ScanOptions, TransactWriteOp,
};
use crate::bridge::parse::{
    as_array, as_object, as_str, expr_input, get_member, opt_string, opt_token, opt_usize,
    parse_condition_opt, parse_filter, parse_index_def, parse_table_def, require, require_str,
    shared_values_names, key_of_json, key_attrs_of, opt_model, str_member, opt_str_member, member, values_ok, names_ok,
};
use crate::bridge::value::{item_conv, json_to_attr, json_to_item, Json};
use crate::application::usecases::inputs::{condition_readable, key_condition_readable, update_readable};
use crate::domain::attribute::AttributeValue;
use crate::domain::table::IndexDef;
use crate::domain::key::KeySchema;
use crate::domain::text::str_eq;
use crate::ports::storage::{lookup, Contents, StorageEngine};
use crate::application::meta::{def_loaded, META_TABLE};

verus! {

/// The error code of an error (DynamoDB's error names).
pub open spec fn code_of(e: DbError) -> Seq<char> {
    match e {
        DbError::ConditionalCheckFailed => "ConditionalCheckFailed"@,
        DbError::TransactionCanceled(_) => "TransactionCanceled"@,
        DbError::ResourceNotFound(_) => "ResourceNotFound"@,
        DbError::ResourceInUse(_) => "ResourceInUse"@,
        DbError::Validation(_) => "ValidationError"@,
        DbError::Serialization(_) => "SerializationError"@,
        DbError::Storage(_) => "StorageError"@,
    }
}

/// The machine-readable code that bindings attach to an error.
pub fn error_code(e: &DbError) -> (r: &'static str)
    ensures
        r@ == code_of(*e),
{
    match e {
        DbError::ConditionalCheckFailed => "ConditionalCheckFailed",
        DbError::TransactionCanceled(_) => "TransactionCanceled",
        DbError::ResourceNotFound(_) => "ResourceNotFound",
        DbError::ResourceInUse(_) => "ResourceInUse",
        DbError::Validation(_) => "ValidationError",
        DbError::Serialization(_) => "SerializationError",
        DbError::Storage(_) => "StorageError",
    }
}

/// What the language bindings call: an engine with the stored forms it
/// keeps definitions and items in.
pub struct Bridge<E, DD, ED, DI, EI> where
    E: StorageEngine,
    DD: Fn(&[u8]) -> Result<TableDef, DbError>,
    ED: Fn(&TableDef) -> Result<Vec<u8>, DbError>,
    DI: Fn(&[u8]) -> Result<Item, DbError>,
    EI: Fn(&Item) -> Result<Vec<u8>, DbError>,
 {
    engine: E,
    codec: Codec<DD, ED, DI, EI>,
}

impl<E, DD, ED, DI, EI> Bridge<E, DD, ED, DI, EI> where
    E: StorageEngine,
    DD: Fn(&[u8]) -> Result<TableDef, DbError>,
    ED: Fn(&TableDef) -> Result<Vec<u8>, DbError>,
    DI: Fn(&[u8]) -> Result<Item, DbError>,
    EI: Fn(&Item) -> Result<Vec<u8>, DbError>,
 {
    #[verifier::type_invariant]
    spec fn codec_total(&self) -> bool {
        self.codec.total()
    }

    /// The engine it runs on.
    pub closed spec fn engine_view(&self) -> E {
        self.engine
    }

    /// The stored forms it keeps definitions and items in.
    pub closed spec fn codec_view(&self) -> Codec<DD, ED, DI, EI> {
        self.codec
    }

    /// A bridge over an engine, with the stored forms it is given.
    pub fn new(engine: E, codec: Codec<DD, ED, DI, EI>) -> (b: Self)
        requires
            codec.total(),
        ensures
            b.engine_view() == engine,
            b.codec_view() == codec,
    {
        Bridge { engine, codec }
    }

    /// The engine itself, for callers that also use the operations directly.
    pub fn engine(&self) -> (r: &E)
        ensures
            *r == self.engine_view(),
    {
        &self.engine
    }

    /// Creates a table from `{ name, key: { pk, sk? }, indexes?: [{ name, key }], ttlAttr? }`.
    pub fn create_table(&self, def: &Json) -> (r: Result<(), DbError>)
        ensures
            !(def is Object) ==> (r matches Err(e) && e is Validation),
    {
        proof {
            use_type_invariant(self);
        }
        let d = parse_table_def(def)?;
        uc::create_table(&self.engine, &d, &self.codec.encode_def)
    }

    /// Deletes a table with its items and index entries.
    pub fn delete_table(&self, name: &str) -> (r: Result<(), DbError>) {
        proof {
            use_type_invariant(self);
        }
        uc::delete_table(&self.engine, name, &self.codec.decode_def)
    }

    /// The names of all tables, sorted.
    pub fn list_tables(&self) -> (r: Result<Vec<String>, DbError>) {
        uc::list_tables(&self.engine)
    }

    /// Removes up to `budget` expired items of a table and returns how many.
    pub fn sweep_expired(&self, table: &str, budget: usize) -> (r: Result<usize, DbError>)
        ensures
            r matches Ok(n) ==> n <= budget,
    {
        proof {
            use_type_invariant(self);
        }
        uc::sweep_expired(&self.engine, table, budget, &self.codec)
    }

    /// Adds and removes indexes: `{ add?: [indexDef], remove?: [name] }`.
    pub fn update_table(&self, name: &str, changes: &Json) -> (r: Result<(), DbError>)
        ensures
            !(changes is Object) ==> (r matches Err(e) && e is Validation),
    {
        proof {
            use_type_invariant(self);
        }
        let obj = as_object(changes, "updateTable changes")?;
        let mut add: Vec<IndexDef> = Vec::new();
        if let Some(list) = get_member(obj, "add") {
            let arr = as_array(list, "add")?;
            let mut i: usize = 0;
            while i < arr.len()
                invariant
                    i <= arr@.len(),
                decreases arr@.len() - i,
            {
                add.push(parse_index_def(&arr[i])?);
                i = i + 1;
            }
        }
        let mut remove: Vec<String> = Vec::new();
        if let Some(list) = get_member(obj, "remove") {
            let arr = as_array(list, "remove")?;
            let mut i: usize = 0;
            while i < arr.len()
                invariant
                    i <= arr@.len(),
                decreases arr@.len() - i,
            {
                remove.push(as_str(&arr[i], "remove entry")?.to_owned());
                i = i + 1;
            }
        }
        uc::update_table(&self.engine, name, add.as_slice(), remove.as_slice(), &self.codec)
    }

    /// Writes a JSON object as an item; options: `{ condition?, values?, names? }`.
    pub fn put(&self, table: &str, item: &Json, options: Option<&Json>) -> (r: Result<(), DbError>)
        ensures
            !(item is Object) ==> (r matches Err(e) && e is Validation),
            r is Ok ==> (item matches Json::Object(f) && item_conv(f@, f@.len()) is Some),
            r is Ok ==> match options {
                Some(Json::Object(f)) => match member(f@, "condition"@) {
                    Some(Json::Str(c)) => condition_readable(c@),
                    _ => true,
                },
                _ => true,
            },
    {
        proof {
            use_type_invariant(self);
        }
        let item = json_to_item(item)?;
        let condition = parse_condition_opt(options)?;
        uc::put_item(&self.engine, table, &item, condition.as_ref(), &self.codec)
    }

    /// Reads the item under `{ pkAttr: value, skAttr?: value }` (the names
    /// come from the table's definition).
    pub fn get(&self, table: &str, key: &Json) -> (r: Result<Option<Item>, DbError>)
        ensures
            r is Ok ==> exists|ks: KeySchema| key_attrs_of(ks, *key) is Some,
    {
        proof {
            use_type_invariant(self);
        }
        let (pk, sk) = self.resolve_key(table, key)?;
        uc::get_item(&self.engine, table, &pk, sk.as_ref(), &self.codec)
    }

    /// Deletes the item under a key and returns it; options as for `put`.
    pub fn delete(&self, table: &str, key: &Json, options: Option<&Json>) -> (r: Result<
        Option<Item>,
        DbError,
    >)
        ensures
            r is Ok ==> exists|ks: KeySchema| key_attrs_of(ks, *key) is Some,
            r is Ok ==> match options {
                Some(Json::Object(f)) => match member(f@, "condition"@) {
                    Some(Json::Str(c)) => condition_readable(c@),
                    _ => true,
                },
                _ => true,
            },
    {
        proof {
            use_type_invariant(self);
        }
        let (pk, sk) = self.resolve_key(table, key)?;
        let condition = parse_condition_opt(options)?;
        uc::delete_item(&self.engine, table, &pk, sk.as_ref(), condition.as_ref(), &self.codec)
    }

    /// Updates the item under a key and returns it whole:
    /// `{ update: "SET ...", condition?, values?, names? }`.
    pub fn update(&self, table: &str, key: &Json, params: &Json) -> (r: Result<Item, DbError>)
        ensures
            r is Ok ==> (params matches Json::Object(f) && str_member(f@, "update"@) matches Some(u)
                && update_readable(u)),
    {
        proof {
            use_type_invariant(self);
        }
        let (pk, sk) = self.resolve_key(table, key)?;
        let obj = as_object(params, "update params")?;
        let expression = as_str(require(obj, "update")?, "update")?.to_owned();
        let (values, names) = shared_values_names(obj)?;
        let update = expr_input(expression, &values, &names);
        let condition = match get_member(obj, "condition") {
            Some(c) => Some(ExprInput { expression: as_str(c, "condition")?.to_owned(), names, values }),
            None => None,
        };
        uc::update_item(&self.engine, table, &pk, sk.as_ref(), &update, condition.as_ref(), &self.codec)
    }

    /// Queries a partition: `{ keyCondition, filter?, values?, names?, index?,
    /// limit?, scanForward?, startKey? }`.
    pub fn query(&self, table: &str, params: &Json) -> (r: Result<Page, DbError>)
        ensures
            r is Ok ==> (params matches Json::Object(f) && str_member(f@, "keyCondition"@) matches Some(
                k,
            ) && key_condition_readable(k)),
    {
        proof {
            use_type_invariant(self);
        }
        let obj = as_object(params, "query params")?;
        let (values, names) = shared_values_names(obj)?;
        let expression = as_str(require(obj, "keyCondition")?, "keyCondition")?.to_owned();
        let key_condition = expr_input(expression, &values, &names);
        let index = opt_string(obj, "index")?;
        let filter = parse_filter(obj, &values, &names)?;
        let scan_forward = match get_member(obj, "scanForward") {
            Some(Json::Bool(b)) => *b,
            Some(_) => {
                return Err(validation("scanForward must be a bool"));
            },
            None => true,
        };
        let limit = opt_usize(obj, "limit")?;
        let exclusive_start_key = opt_token(obj, "startKey")?;
        let opts = QueryOptions { index, filter, scan_forward, limit, exclusive_start_key, projection: None };
        uc::query(&self.engine, table, &key_condition, &opts, &self.codec)
    }

    /// Scans a table: `{ filter?, values?, names?, limit?, startKey? }`.
    pub fn scan(&self, table: &str, params: &Json) -> (r: Result<Page, DbError>)
        ensures
            r is Ok ==> (params matches Json::Object(f) && values_ok(f@) && names_ok(f@) && match member(
                f@,
                "filter"@,
            ) {
                Some(Json::Str(c)) => condition_readable(c@),
                _ => true,
            }),
    {
        proof {
            use_type_invariant(self);
        }
        let obj = as_object(params, "scan params")?;
        let (values, names) = shared_values_names(obj)?;
        let filter = parse_filter(obj, &values, &names)?;
        let limit = opt_usize(obj, "limit")?;
        let exclusive_start_key = opt_token(obj, "startKey")?;
        let opts = ScanOptions { filter, limit, exclusive_start_key, projection: None };
        uc::scan(&self.engine, table, &opts, &self.codec)
    }

    /// Applies operations all-or-nothing: `[{ "put": {table, item, condition?,
    /// values?, names?} } | { "update": {table, key, update, ...} } | { "delete":
    /// {table, key, ...} } | { "conditionCheck": {table, key, condition, ...} }]`.
    pub fn transact_write(&self, ops: &Json) -> (r: Result<(), DbError>)
        ensures
            !(ops is Array) ==> (r matches Err(e) && e is Validation),
    {
        proof {
            use_type_invariant(self);
        }
        let list = as_array(ops, "transactWrite ops")?;
        let mut parsed: Vec<TransactWriteOp> = Vec::new();
        let mut i: usize = 0;
        while i < list.len()
            invariant
                *ops == Json::Array(*list),
                i <= list@.len(),
            decreases list@.len() - i,
        {
            parsed.push(self.parse_transact_op(&list[i])?);
            i = i + 1;
        }
        uc::transact_write(&self.engine, parsed.as_slice(), &self.codec)
    }

    /// Reads `[{ table, key }]` in one snapshot, in the same order.
    pub fn transact_get(&self, keys: &Json) -> (r: Result<Vec<Option<Item>>, DbError>)
        ensures
            r matches Ok(v) ==> (keys matches Json::Array(a) && v@.len() == a@.len()),
    {
        proof {
            use_type_invariant(self);
        }
        let refs = self.parse_key_refs(keys)?;
        uc::transact_get(&self.engine, refs.as_slice(), &self.codec)
    }

    /// Locally the same as `transact_get`.
    pub fn batch_get(&self, keys: &Json) -> (r: Result<Vec<Option<Item>>, DbError>)
        ensures
            r matches Ok(v) ==> (keys matches Json::Array(a) && v@.len() == a@.len()),
    {
        self.transact_get(keys)
    }

    /// `{ puts?: [{table, item}], deletes?: [{table, key}] }`, applied one by one.
    pub fn batch_write(&self, params: &Json) -> (r: Result<(), DbError>)
        ensures
            !(params is Object) ==> (r matches Err(e) && e is Validation),
    {
        proof {
            use_type_invariant(self);
        }
        let obj = as_object(params, "batchWrite params")?;
        let mut puts: Vec<(String, Item)> = Vec::new();
        if let Some(list) = get_member(obj, "puts") {
            let arr = as_array(list, "puts")?;
            let mut i: usize = 0;
            while i < arr.len()
                invariant
                    i <= arr@.len(),
                decreases arr@.len() - i,
            {
                let p = as_object(&arr[i], "puts entry")?;
                let table = require_str(p, "table")?;
                let item = json_to_item(require(p, "item")?)?;
                puts.push((table, item));
                i = i + 1;
            }
        }
        let deletes = match get_member(obj, "deletes") {
            Some(list) => self.parse_key_refs(list)?,
            None => Vec::new(),
        };
        uc::batch_write(&self.engine, puts.as_slice(), deletes.as_slice(), &self.codec)
    }

    /// One transaction operation: an object with exactly one member, named
    /// for the kind of operation.
    pub fn parse_transact_op(&self, v: &Json) -> (r: Result<TransactWriteOp, DbError>)
        ensures
            r matches Ok(op) ==> transact_op_written(*v, op),
            !(v matches Json::Object(f) && f@.len() == 1) ==> (r matches Err(e) && e is Validation),
            (v matches Json::Object(f) && f@.len() == 1 && !(f@[0].1 is Object)) ==> (r matches Err(
                e,
            ) && e is Validation),
            match op_parts(*v) {
                Some((k, body)) => {
                    &&& !op_common_ok(body) ==> (r matches Err(e) && e is Validation)
                    &&& op_common_ok(body) && !known_kind(k) ==> (r matches Err(e) && e is Validation)
                    &&& op_common_ok(body) && k == "put"@ ==> (r is Ok <==> put_item_ok(body))
                    &&& op_common_ok(body) && k == "put"@ ==> (r matches Err(e) ==> e is Validation)
                    &&& op_common_ok(body) && known_kind(k) && k != "put"@ && member(body, "key"@) is None
                        ==> (r matches Err(e) && e is Validation)
                    &&& k == "update"@ && !(member(body, "update"@) matches Some(Json::Str(_))) ==> (
                    r matches Err(e) && key_lookup_error(e))
                    &&& k == "conditionCheck"@ && member(body, "condition"@) is None ==> (r matches Err(e)
                        && key_lookup_error(e))
                },
                None => true,
            },
    {
        proof {
            use_type_invariant(self);
            reveal_strlit("put");
            reveal_strlit("update");
            reveal_strlit("delete");
            reveal_strlit("conditionCheck");
            assert("put"@.len() == 3 && "update"@.len() == 6 && "conditionCheck"@.len() == 14);
            assert("delete"@[0] == 'd' && "update"@[0] == 'u');
        }
        let obj = as_object(v, "transact op")?;
        if obj.len() != 1 {
            return Err(
                validation(
                    "each transact op must be an object with exactly one of put / update / delete / conditionCheck",
                ),
            );
        }
        let kind = obj[0].0.as_str();
        let body = as_object(&obj[0].1, kind)?;
        let table = require_str(body, "table")?;
        let (values, names) = shared_values_names(body)?;
        let condition = match get_member(body, "condition") {
            Some(c) => {
                let text = as_str(c, "condition")?.to_owned();
                Some(expr_input(text, &values, &names))
            },
            None => None,
        };
        if str_eq(kind, "put") {
            let item = json_to_item(require(body, "item")?)?;
            Ok(TransactWriteOp::Put { table, item, condition })
        } else if str_eq(kind, "update") {
            let (pk, sk) = self.resolve_key(table.as_str(), require(body, "key")?)?;
            let expression = as_str(require(body, "update")?, "update")?.to_owned();
            let update = ExprInput { expression, names, values };
            Ok(TransactWriteOp::Update { table, pk, sk, update, condition })
        } else if str_eq(kind, "delete") {
            let (pk, sk) = self.resolve_key(table.as_str(), require(body, "key")?)?;
            Ok(TransactWriteOp::Delete { table, pk, sk, condition })
        } else if str_eq(kind, "conditionCheck") {
            let (pk, sk) = self.resolve_key(table.as_str(), require(body, "key")?)?;
            match condition {
                Some(condition) => Ok(TransactWriteOp::ConditionCheck { table, pk, sk, condition }),
                None => Err(validation("conditionCheck requires condition")),
            }
        } else {
            Err(
                validation(
                    "unknown transact op (expected put / update / delete / conditionCheck)",
                ),
            )
        }
    }

    /// `[{ table, key }]` as key references.
    pub fn parse_key_refs(&self, v: &Json) -> (r: Result<Vec<KeyRef>, DbError>)
        ensures
            match (v, r) {
                (Json::Array(a), Ok(refs)) => refs@.len() == a@.len() && forall|i: int|
                    0 <= i < a@.len() ==> ((#[trigger] a@[i]) matches Json::Object(o) && str_member(
                        o@,
                        "table"@,
                    ) == Some(refs@[i].table@)),
                (_, Ok(_)) => false,
                (Json::Array(_), Err(_)) => true,
                (_, Err(e)) => e is Validation,
            },
    {
        proof {
            use_type_invariant(self);
        }
        let arr = as_array(v, "keys")?;
        let mut out: Vec<KeyRef> = Vec::new();
        let mut i: usize = 0;
        while i < arr.len()
            invariant
                *v == Json::Array(*arr),
                i <= arr@.len(),
                out@.len() == i,
                forall|j: int|
                    0 <= j < i ==> ((#[trigger] arr@[j]) matches Json::Object(o) && str_member(
                        o@,
                        "table"@,
                    ) == Some(out@[j].table@)),
            decreases arr@.len() - i,
        {
            let obj = as_object(&arr[i], "key entry")?;
            let table = require_str(obj, "table")?;
            let (pk, sk) = self.resolve_key(table.as_str(), require(obj, "key")?)?;
            out.push(KeyRef { table, pk, sk });
            i = i + 1;
        }
        Ok(out)
    }

    /// A key object read against the table's key schema: the partition key
    /// value and, when the table has one, the sort key value.
    pub fn resolve_key(&self, table: &str, key: &Json) -> (r: Result<
        (AttributeValue, Option<AttributeValue>),
        DbError,
    >)
        ensures
            r matches Ok((pk, sk)) ==> exists|ks: KeySchema|
                key_attrs_of(ks, *key) == Some((pk@, opt_model(sk))),
            r matches Err(e) ==> key_lookup_error(e),
    {
        proof {
            use_type_invariant(self);
        }
        let def = match uc::describe_table(&self.engine, table, &self.codec.decode_def) {
            Ok(d) => d,
            Err(e) => {
                proof {
                    let c = choose|c: Contents| def_loaded(self.codec.decode_def, c, table@, Err::<TableDef, DbError>(e));
                    if lookup(c, META_TABLE@, utf8("table:"@ + table@)) is Some && !(e is Storage) {
                        let s = choose|s: &[u8]| s@ == lookup(c, META_TABLE@, utf8("table:"@ + table@))->0
                            && self.codec.decode_def.ensures((s,), Err::<TableDef, DbError>(e));
                    }
                }
                return Err(e);
            },
        };
        key_of_json(&def.key, key)
    }

    /// The stored forms the bridge uses.
    pub fn codec(&self) -> (r: &Codec<DD, ED, DI, EI>)
        ensures
            r.total(),
            *r == self.codec_view(),
    {
        proof {
            use_type_invariant(self);
        }
        &self.codec
    }
}

/// The kind and the body of a transaction operation written as an object
/// with one member whose value is an object.
pub open spec fn op_parts(v: Json) -> Option<(Seq<char>, Seq<(String, Json)>)> {
    match v {
        Json::Object(f) => if f@.len() == 1 {
            match f@[0].1 {
                Json::Object(b) => Some((f@[0].0@, b@)),
                _ => None,
            }
        } else {
            None
        },
        _ => None,
    }
}

/// What every operation's body holds: a table name, valid placeholders, and
/// a condition that is a string where there is one.
pub open spec fn op_common_ok(body: Seq<(String, Json)>) -> bool {
    &&& str_member(body, "table"@) is Some
    &&& values_ok(body) && names_ok(body)
    &&& opt_str_member(body, "condition"@) is Ok
}

/// The kinds of transaction operation.
pub open spec fn known_kind(k: Seq<char>) -> bool {
    k == "put"@ || k == "update"@ || k == "delete"@ || k == "conditionCheck"@
}

/// A put's body holds an item that converts.
pub open spec fn put_item_ok(body: Seq<(String, Json)>) -> bool {
    member(body, "item"@) matches Some(Json::Object(g)) && item_conv(g@, g@.len()) is Some
}

/// An error that reading a key's table can give: the adapter's, an unknown
/// table, an undecodable definition, or a key that does not fit the schema.
pub open spec fn key_lookup_error(e: DbError) -> bool {
    e is Storage || e is ResourceNotFound || e is Serialization || e is Validation
}

/// The member name of each kind of transaction operation.
/// `v` writes the operation `op` of a transaction: an object with the one
/// member naming its kind, whose body names its table, its placeholders, its
/// condition and, for a put, its item and, for an update, its expression.
pub open spec fn transact_op_written(v: Json, op: TransactWriteOp) -> bool {
    match v {
        Json::Object(f) => f@.len() == 1 && f@[0].0@ == op_kind(op) && match f@[0].1 {
            Json::Object(body) => {
                &&& str_member(body@, "table"@) == Some(op_table(op))
                &&& values_ok(body@) && names_ok(body@)
                &&& opt_str_member(body@, "condition"@) == Ok::<Option<Seq<char>>, ()>(
                    op_condition(op),
                )
                &&& match op {
                    TransactWriteOp::Put { item, .. } => match member(body@, "item"@) {
                        Some(Json::Object(g)) => item_conv(g@, g@.len()) == Some(item.model()),
                        _ => false,
                    },
                    TransactWriteOp::Update { update, .. } => str_member(body@, "update"@) == Some(
                        update.expression@,
                    ),
                    _ => true,
                }
            },
            _ => false,
        },
        _ => false,
    }
}

/// The table an operation of a transaction names.
pub open spec fn op_table(op: TransactWriteOp) -> Seq<char> {
    match op {
        TransactWriteOp::Put { table, .. } => table@,
        TransactWriteOp::Update { table, .. } => table@,
        TransactWriteOp::Delete { table, .. } => table@,
        TransactWriteOp::ConditionCheck { table, .. } => table@,
    }
}

/// The condition text of an operation of a transaction, where it has one.
pub open spec fn op_condition(op: TransactWriteOp) -> Option<Seq<char>> {
    match op {
        TransactWriteOp::Put { condition, .. } => match condition {
            Some(c) => Some(c.expression@),
            None => None,
        },
        TransactWriteOp::Update { condition, .. } => match condition {
            Some(c) => Some(c.expression@),
            None => None,
        },
        TransactWriteOp::Delete { condition, .. } => match condition {
            Some(c) => Some(c.expression@),
            None => None,
        },
        TransactWriteOp::ConditionCheck { condition, .. } => Some(condition.expression@),
    }
}

pub open spec fn op_kind(op: TransactWriteOp) -> Seq<char> {
    match op {
        TransactWriteOp::Put { .. } => "put"@,
        TransactWriteOp::Update { .. } => "update"@,
        TransactWriteOp::Delete { .. } => "delete"@,
        TransactWriteOp::ConditionCheck { .. } => "conditionCheck"@,
    }
}

/// The lower-case hex digit of a value below 16.
pub open spec fn hex_digit(n: u8) -> u8 {
    if n < 10 {
        (n + 48) as u8
    } else {
        (n + 87) as u8
    }
}

/// Two lower-case hex digits per byte.
pub open spec fn hex_text(b: Seq<u8>) -> Seq<u8>
    decreases b.len(),
{
    if b.len() == 0 {
        Seq::empty()
    } else {
        hex_text(b.drop_last()) + seq![hex_digit(b.last() / 16), hex_digit(b.last() % 16)]
    }
}

proof fn lemma_hex_text_ascii(b: Seq<u8>)
    ensures
        ascii_bytes(hex_text(b)),
        hex_text(b).len() == 2 * b.len(),
    decreases b.len(),
{
    if b.len() > 0 {
        lemma_hex_text_ascii(b.drop_last());
    }
}

/// The hex text of bytes ("00ff10").
pub fn to_hex(bytes: &[u8]) -> (r: String)
    ensures
        utf8(r@) == hex_text(bytes@),
{
    let mut out: Vec<u8> = Vec::new();
    let mut i: usize = 0;
    while i < bytes.len()
        invariant
            i <= bytes@.len(),
            out@ == hex_text(bytes@.take(i as int)),
        decreases bytes@.len() - i,
    {
        let b = bytes[i];
        let hi = b / 16;
        let lo = b % 16;
        out.push(if hi < 10 { hi + 48 } else { hi + 87 });
        out.push(if lo < 10 { lo + 48 } else { lo + 87 });
        proof {
            assert(bytes@.take(i + 1).drop_last() =~= bytes@.take(i as int));
            assert(out@ =~= hex_text(bytes@.take(i + 1)));
        }
        i = i + 1;
    }
    assert(bytes@.take(i as int) =~= bytes@);
    proof {
        lemma_hex_text_ascii(bytes@);
    }
    ascii_string(out)
}

/// The value of a hex digit, either case.
pub open spec fn hex_value(c: u8) -> Option<u8> {
    if 48 <= c <= 57 {
        Some((c - 48) as u8)
    } else if 97 <= c <= 102 {
        Some((c - 87) as u8)
    } else if 65 <= c <= 70 {
        Some((c - 55) as u8)
    } else {
        None
    }
}

/// The byte written by two hex digits; nothing else is a byte of a token.
pub open spec fn pair_value(c0: u8, c1: u8) -> Option<u8> {
    match (hex_value(c0), hex_value(c1)) {
        (Some(a), Some(b)) => Some((a * 16 + b) as u8),
        _ => None,
    }
}

/// The bytes written by a hex text, two characters per byte.
pub open spec fn unhex(b: Seq<u8>) -> Option<Seq<u8>>
    decreases b.len(),
{
    if b.len() == 0 {
        Some(Seq::empty())
    } else if b.len() == 1 {
        None
    } else {
        match (pair_value(b[0], b[1]), unhex(b.subrange(2, b.len() as int))) {
            (Some(v), Some(rest)) => Some(seq![v] + rest),
            _ => None,
        }
    }
}

fn hex_value_exec(c: u8) -> (r: Option<u8>)
    ensures
        r == hex_value(c),
{
    if 48 <= c && c <= 57 {
        Some(c - 48)
    } else if 97 <= c && c <= 102 {
        Some(c - 87)
    } else if 65 <= c && c <= 70 {
        Some(c - 55)
    } else {
        None
    }
}

/// The bytes of a hex token; an error where the text is not one.
pub fn from_hex(s: &str) -> (r: Result<Vec<u8>, DbError>)
    requires
        utf8(s@).len() % 2 == 0 ==> forall|i: int|
            0 <= i <= utf8(s@).len() && i % 2 == 0 ==> is_char_boundary(utf8(s@), i),
    ensures
        match r {
            Ok(v) => unhex(utf8(s@)) == Some(v@),
            Err(e) => unhex(utf8(s@)) is None && e is Validation,
        },
{
    let b = s.as_bytes();
    let ghost t = b@;
    if b.len() % 2 != 0 {
        proof {
            lemma_unhex_odd(t);
        }
        return Err(validation("invalid opaque token"));
    }
    let mut out: Vec<u8> = Vec::new();
    let mut i: usize = 0;
    assert(t.subrange(0, t.len() as int) =~= t);
    assert(forall|rest: Seq<u8>| out@ + rest =~= rest);
    while i < b.len()
        invariant
            t == b@,
            t == utf8(s@),
            t.len() % 2 == 0,
            i <= t.len(),
            i % 2 == 0,
            unhex(t) == match unhex(t.subrange(i as int, t.len() as int)) {
                Some(rest) => Some(out@ + rest),
                None => None::<Seq<u8>>,
            },
        decreases t.len() - i,
    {
        let ghost tail = t.subrange(i as int, t.len() as int);
        assert(tail.subrange(2, tail.len() as int) =~= t.subrange(i + 2, t.len() as int));
        assert(tail[0] == b[i as int] && tail[1] == b[i + 1]);
        assert(i + 1 < t.len());
        let c0 = b[i];
        let c1 = b[i + 1];
        let v = match (hex_value_exec(c0), hex_value_exec(c1)) {
            (Some(x), Some(y)) => Some(x * 16 + y),
            _ => None,
        };
        match v {
            Some(x) => {
                let ghost before = out@;
                out.push(x);
                proof {
                    assert(out@ =~= before + seq![x]);
                    if let Some(rest) = unhex(t.subrange(i + 2, t.len() as int)) {
                        assert(before + (seq![x] + rest) =~= out@ + rest);
                    }
                }
            },
            None => {
                assert(pair_value(c0, c1) is None);
                assert(unhex(tail) is None);
                return Err(validation("invalid opaque token"));
            },
        }
        i = i + 2;
    }
    assert(t.subrange(i as int, t.len() as int) =~= Seq::<u8>::empty());
    assert(out@ + Seq::<u8>::empty() =~= out@);
    Ok(out)
}

proof fn lemma_unhex_concat(x: Seq<u8>, y: Seq<u8>)
    requires
        x.len() % 2 == 0,
    ensures
        unhex(x + y) == match (unhex(x), unhex(y)) {
            (Some(a), Some(c)) => Some(a + c),
            _ => None::<Seq<u8>>,
        },
    decreases x.len(),
{
    if x.len() == 0 {
        assert(x + y =~= y);
        if let Some(c) = unhex(y) {
            assert(Seq::<u8>::empty() + c =~= c);
        }
    } else {
        let xy = x + y;
        let x2 = x.subrange(2, x.len() as int);
        assert(xy.subrange(2, xy.len() as int) =~= x2 + y);
        assert(xy[0] == x[0] && xy[1] == x[1]);
        lemma_unhex_concat(x2, y);
        if let (Some(v), Some(a2), Some(c)) = (pair_value(x[0], x[1]), unhex(x2), unhex(y)) {
            assert(seq![v] + (a2 + c) =~= (seq![v] + a2) + c);
        }
    }
}

proof fn lemma_pair_of_digits(v: u8)
    ensures
        pair_value(hex_digit(v / 16), hex_digit(v % 16)) == Some(v),
{
    assert(v / 16 < 16);
    assert(v % 16 < 16);
    assert((v / 16) * 16 + v % 16 == v);
}

/// Pagination tokens survive the trip through their text: the hex text of
/// any bytes reads back as those bytes.
pub proof fn lemma_hex_round_trip(b: Seq<u8>)
    ensures
        unhex(hex_text(b)) == Some(b),
    decreases b.len(),
{
    if b.len() > 0 {
        let init = b.drop_last();
        let v = b.last();
        lemma_hex_round_trip(init);
        lemma_hex_text_ascii(init);
        let pair = seq![hex_digit(v / 16), hex_digit(v % 16)];
        lemma_pair_of_digits(v);
        assert(pair.subrange(2, 2) =~= Seq::<u8>::empty());
        assert(pair[0] == hex_digit(v / 16) && pair[1] == hex_digit(v % 16));
        assert(unhex(Seq::<u8>::empty()) == Some(Seq::<u8>::empty()));
        assert(unhex(pair) == Some(seq![v] + Seq::<u8>::empty()));
        assert(seq![v] + Seq::<u8>::empty() =~= seq![v]);
        lemma_unhex_concat(hex_text(init), pair);
        assert(init + seq![v] =~= b);
    }
}

proof fn lemma_unhex_odd(b: Seq<u8>)
    requires
        b.len() % 2 == 1,
    ensures
        unhex(b) is None,
    decreases b.len(),
{
    if b.len() > 1 {
        lemma_unhex_odd(b.subrange(2, b.len() as int));
    }
}

} // verus!
