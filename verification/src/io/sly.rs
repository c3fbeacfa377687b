use crate::io::{ModelIOError, ModelLoaderMeta, ModelWriterMeta};
use crate::models::label::lbl;
use crate::models::Label;
use vstd::prelude::*;

verus! {

/// Loader of SLY files, which tell the type of the model they hold.
pub struct SLYLoader;

/// Writer of SLY files.
pub struct SLYWriter;

/// A JSON document as a tree of plain values: a number is kept as its decimal text, an
/// object as its entries in the order they are read.
#[derive(Debug, PartialEq)]
pub enum JsonValue {
    Null,
    Bool(bool),
    Number(String),
    Text(String),
    Array(Vec<JsonValue>),
    Object(Vec<(String, JsonValue)>),
}

#[verifier::external_type_specification]
#[verifier::external_body]
pub struct ExJsonTree(serde_json::Value);

/// What serde_json reads from `text`, as a [`JsonValue`]; `None` where it refuses the text.
pub uninterp spec fn parsed_json(text: Seq<char>) -> Option<JsonValue>;

/// serde_json's tree turned into a [`JsonValue`], variant by variant: a number becomes
/// the text serde_json prints for it, an object its entries in the order of serde_json's map.
#[verifier::external_body]
fn json_from_tree(tree: serde_json::Value) -> JsonValue {
    match tree {
        serde_json::Value::Null => JsonValue::Null,
        serde_json::Value::Bool(b) => JsonValue::Bool(b),
        serde_json::Value::Number(n) => JsonValue::Number(n.to_string()),
        serde_json::Value::String(s) => JsonValue::Text(s),
        serde_json::Value::Array(a) => JsonValue::Array(a.into_iter().map(json_from_tree).collect()),
        serde_json::Value::Object(m) => JsonValue::Object(
            m.into_iter().map(|(k, v)| (k, json_from_tree(v))).collect(),
        ),
    }
}

/// serde_json's `from_str` into a `Value` tree, turned into a [`JsonValue`]; `None` where
/// serde_json returns an error. The tree depends on the text alone and is named by
/// [`parsed_json`]; which texts serde_json accepts is not stated here.
#[verifier::external_body]
fn parse_json(text: &str) -> (r: Option<JsonValue>)
    ensures
        r == parsed_json(text@),
{
    serde_json::from_str::<serde_json::Value>(text).ok().map(json_from_tree)
}

/// Key of the entry that names the model type.
pub open spec fn model_type_key() -> Seq<char> {
    "model-type"@
}

/// Key of the entry that holds the model.
pub open spec fn model_key() -> Seq<char> {
    "model"@
}

/// Key of the entry that holds the initial state.
pub open spec fn initial_state_key() -> Seq<char> {
    "initial-state"@
}

/// Key of the entry that holds the queries.
pub open spec fn queries_key() -> Seq<char> {
    "queries"@
}

/// The value of the first entry of `entries` under `key`.
pub open spec fn entry(entries: Seq<(String, JsonValue)>, key: Seq<char>) -> Option<JsonValue>
    decreases entries.len(),
{
    if entries.len() == 0 {
        None
    } else if entries[0].0@ == key {
        Some(entries[0].1)
    } else {
        entry(entries.drop_first(), key)
    }
}

/// Whether `doc` has the entry that names its model type, when it is an object: reading an
/// object without it is not defined.
pub open spec fn names_model_type(doc: JsonValue) -> bool {
    doc matches JsonValue::Object(entries) ==> entry(entries@, model_type_key()) is Some
}

/// Whether `doc` is a SLY document: an object whose model type is a string and which holds
/// a model.
pub open spec fn is_sly_document(doc: JsonValue) -> bool {
    &&& doc matches JsonValue::Object(entries)
    &&& entry(entries@, model_type_key()) matches Some(JsonValue::Text(_))
    &&& entry(entries@, model_key()) is Some
}

/// Whether `read` holds what the SLY document `doc` says: its model type, its model, and its
/// initial state and queries where it has them.
pub open spec fn reads_document(doc: JsonValue, read: SlyDocument) -> bool {
    &&& doc matches JsonValue::Object(entries)
    &&& entry(entries@, model_type_key()) matches Some(JsonValue::Text(t)) && read.model_type@ == t@
    &&& entry(entries@, model_key()) == Some(read.model)
    &&& entry(entries@, initial_state_key()) == read.initial_state
    &&& entry(entries@, queries_key()) == read.queries
}

/// What a SLY file holds: the type of its model, the model, and its initial state and queries
/// where it has them, each still as JSON.
#[derive(Debug, PartialEq)]
pub struct SlyDocument {
    pub model_type: Label,
    pub model: JsonValue,
    pub initial_state: Option<JsonValue>,
    pub queries: Option<JsonValue>,
}

/// Reads the entries of a SLY document: an error where `doc` is not an object, where its
/// model type is not a string, or where it holds no model.
pub fn read_document(doc: JsonValue) -> (r: Result<SlyDocument, ModelIOError>)
    requires
        names_model_type(doc),
    ensures
        r is Ok <==> is_sly_document(doc),
        r matches Ok(read) ==> reads_document(doc, read),
{
    let mut entries = match doc {
        JsonValue::Object(entries) => entries,
        _ => {
            return Err(ModelIOError);
        },
    };
    let ghost all = entries@;
    let type_key = "model-type".to_owned();
    let model_key_text = "model".to_owned();
    let initial_key = "initial-state".to_owned();
    let queries_key_text = "queries".to_owned();
    let mut model_type: Option<JsonValue> = None;
    let mut model: Option<JsonValue> = None;
    let mut initial_state: Option<JsonValue> = None;
    let mut queries: Option<JsonValue> = None;
    while entries.len() > 0
        invariant
            entries@ == all.take(entries@.len() as int),
            entries@.len() <= all.len(),
            type_key@ == model_type_key(),
            model_key_text@ == model_key(),
            initial_key@ == initial_state_key(),
            queries_key_text@ == queries_key(),
            model_type == entry(all.skip(entries@.len() as int), model_type_key()),
            model == entry(all.skip(entries@.len() as int), model_key()),
            initial_state == entry(all.skip(entries@.len() as int), initial_state_key()),
            queries == entry(all.skip(entries@.len() as int), queries_key()),
        decreases entries@.len(),
    {
        let ghost n = entries@.len() as int;
        proof {
            reveal_strlit("model-type");
            reveal_strlit("model");
            reveal_strlit("initial-state");
            reveal_strlit("queries");
            assert(model_type_key().len() == 10 && model_key().len() == 5);
            assert(initial_state_key().len() == 13 && queries_key().len() == 7);
        }
        assert(all.skip(n - 1).drop_first() =~= all.skip(n));
        assert(all.skip(n - 1)[0] == all[n - 1]);
        let popped = entries.pop();
        assert(entries@ =~= all.take(n - 1));
        if let Some((key, value)) = popped {
            if key == type_key {
                model_type = Some(value);
            } else if key == model_key_text {
                model = Some(value);
            } else if key == initial_key {
                initial_state = Some(value);
            } else if key == queries_key_text {
                queries = Some(value);
            }
        }
    }
    assert(all.skip(0) =~= all);
    let model_type = match model_type {
        Some(JsonValue::Text(t)) => Label::from_string(t),
        _ => {
            return Err(ModelIOError);
        },
    };
    match model {
        Some(model) => Ok(SlyDocument { model_type, model, initial_state, queries }),
        None => Err(ModelIOError),
    }
}

impl SLYLoader {
    /// The loader's description: it reads `.sly` files, of any model type.
    pub fn get_meta(&self) -> (r: ModelLoaderMeta)
        ensures
            r.name@ == "SLYLoader"@,
            r.description@ == "Generic loader to load SLY files, that embed metada to identify the model type"@,
            r.ext@ == "sly"@,
            r.output@ == "any"@,
    {
        ModelLoaderMeta {
            name: lbl("SLYLoader"),
            description: "Generic loader to load SLY files, that embed metada to identify the model type".to_owned(),
            ext: lbl("sly"),
            output: lbl("any"),
        }
    }

    /// Reads the SLY file `content`: an error where it is not JSON that serde_json accepts,
    /// else what [`read_document`] gives of it.
    pub fn load(&self, content: String) -> (r: Result<SlyDocument, ModelIOError>)
        requires
            parsed_json(content@) matches Some(doc) ==> names_model_type(doc),
        ensures
            match parsed_json(content@) {
                None => r is Err,
                Some(doc) => {
                    &&& r is Ok <==> is_sly_document(doc)
                    &&& r matches Ok(read) ==> reads_document(doc, read)
                },
            },
    {
        match parse_json(content.as_str()) {
            None => Err(ModelIOError),
            Some(doc) => read_document(doc),
        }
    }

    /// Reads the SLY file `content` as [`SLYLoader::load`] does, where it can be read: `None`
    /// where it is a JSON object without a model type, which [`SLYLoader::load`] does not take.
    pub fn try_load(&self, content: String) -> (r: Option<Result<SlyDocument, ModelIOError>>)
        ensures
            r is None <==> !(parsed_json(content@) matches Some(doc) ==> names_model_type(doc)),
            r matches Some(res) ==> match parsed_json(content@) {
                None => res is Err,
                Some(doc) => {
                    &&& res is Ok <==> is_sly_document(doc)
                    &&& res matches Ok(read) ==> reads_document(doc, read)
                },
            },
    {
        let parsed = parse_json(content.as_str());
        let readable = match &parsed {
            None => true,
            Some(doc) => has_model_type(doc),
        };
        if readable {
            Some(self.load(content))
        } else {
            None
        }
    }
}

/// Whether `doc` has the entry that names its model type, when it is an object.
fn has_model_type(doc: &JsonValue) -> (r: bool)
    ensures
        r == names_model_type(*doc),
{
    match doc {
        JsonValue::Object(entries) => {
            let key = "model-type".to_owned();
            let mut i: usize = entries.len();
            let mut found = false;
            while i > 0
                invariant
                    i <= entries@.len(),
                    key@ == model_type_key(),
                    found == (entry(entries@.skip(i as int), model_type_key()) is Some),
                decreases i,
            {
                assert(entries@.skip(i - 1).drop_first() =~= entries@.skip(i as int));
                assert(entries@.skip(i - 1)[0] == entries@[i - 1]);
                i = i - 1;
                if entries[i].0 == key {
                    found = true;
                }
            }
            assert(entries@.skip(0) =~= entries@);
            found
        },
        _ => true,
    }
}

impl SLYWriter {
    /// The writer's description: it writes `.sly` files, of any model type.
    pub fn get_meta(&self) -> (r: ModelWriterMeta)
        ensures
            r.name@ == "SLYWriter"@,
            r.description@ == "Generic writer to write SLY files, that embed metada to identify the model type"@,
            r.ext@ == "sly"@,
            r.input@ == "any"@,
    {
        ModelWriterMeta {
            name: lbl("SLYWriter"),
            description: "Generic writer to write SLY files, that embed metada to identify the model type".to_owned(),
            ext: lbl("sly"),
            input: lbl("any"),
        }
    }

    /// The SLY document that holds `doc`: an object with its model type and its model, and
    /// its initial state and queries where it has them, its keys in the order serde_json's
    /// map keeps them.
    pub fn write_document(doc: SlyDocument) -> (r: JsonValue)
        ensures
            is_sly_document(r),
            reads_document(r, doc),
            r matches JsonValue::Object(entries) && entries@.len() == 2 + (if doc.initial_state is Some { 1int } else { 0 })
                + (if doc.queries is Some { 1int } else { 0 }),
    {
        proof {
            reveal_strlit("model-type");
            reveal_strlit("model");
            reveal_strlit("initial-state");
            reveal_strlit("queries");
            reveal_with_fuel(entry, 5);
        }
        let SlyDocument { model_type, model, initial_state, queries } = doc;
        let mut entries: Vec<(String, JsonValue)> = Vec::new();
        match initial_state {
            Some(initial) => entries.push(("initial-state".to_owned(), initial)),
            None => {},
        }
        entries.push(("model".to_owned(), model));
        entries.push(("model-type".to_owned(), JsonValue::Text(model_type.as_str().to_owned())));
        match queries {
            Some(queries) => entries.push(("queries".to_owned(), queries)),
            None => {},
        }
        assert(model_type_key().len() == 10 && model_key().len() == 5);
        assert(initial_state_key().len() == 13 && queries_key().len() == 7);
        JsonValue::Object(entries)
    }
}

} // verus!
