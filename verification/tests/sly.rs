use sally::io::sly::{read_document, JsonValue, SLYLoader, SLYWriter, SlyDocument};
use sally::io::ModelIOError;
use sally::models::label::lbl;

fn text(s: &str) -> String {
    s.to_owned()
}

#[test]
fn a_sly_file_gives_its_model_type_model_and_queries() {
    let content = text(r#"{"model-type":"TPN","model":{"places":[]},"queries":[1,2.5]}"#);
    let read = SLYLoader.load(content).unwrap();
    assert_eq!(read.model_type, lbl("TPN"));
    assert_eq!(
        read.model,
        JsonValue::Object(vec![(text("places"), JsonValue::Array(vec![]))])
    );
    assert_eq!(read.initial_state, None);
    assert_eq!(
        read.queries,
        Some(JsonValue::Array(vec![
            JsonValue::Number(text("1")),
            JsonValue::Number(text("2.5"))
        ]))
    );
}

#[test]
fn the_initial_state_is_read_where_there_is_one() {
    let content = text(r#"{"initial-state":{"p":true},"model":null,"model-type":"MarkovChain"}"#);
    let read = SLYLoader.load(content).unwrap();
    assert_eq!(read.model_type, lbl("MarkovChain"));
    assert_eq!(read.model, JsonValue::Null);
    assert_eq!(
        read.initial_state,
        Some(JsonValue::Object(vec![(text("p"), JsonValue::Bool(true))]))
    );
    assert_eq!(read.queries, None);
}

#[test]
fn text_that_is_not_json_is_refused() {
    assert_eq!(SLYLoader.load(text("model-type: TPN")), Err(ModelIOError));
}

#[test]
fn a_document_that_is_not_an_object_is_refused() {
    assert_eq!(SLYLoader.load(text("[1, 2]")), Err(ModelIOError));
}

#[test]
fn a_model_type_that_is_not_a_string_is_refused() {
    assert_eq!(
        SLYLoader.load(text(r#"{"model-type":3,"model":{}}"#)),
        Err(ModelIOError)
    );
}

#[test]
fn a_document_without_model_is_refused() {
    assert_eq!(SLYLoader.load(text(r#"{"model-type":"TPN"}"#)), Err(ModelIOError));
}

#[test]
fn an_object_without_model_type_is_not_read() {
    assert_eq!(SLYLoader.try_load(text(r#"{"model":{}}"#)), None);
    assert_eq!(SLYLoader.try_load(text("no json")), Some(Err(ModelIOError)));
}

#[test]
fn try_load_reads_what_load_reads() {
    let content = r#"{"model-type":"TPN","model":[true]}"#;
    let read = SLYLoader.try_load(text(content)).unwrap().unwrap();
    assert_eq!(read, SLYLoader.load(text(content)).unwrap());
    assert_eq!(read.model, JsonValue::Array(vec![JsonValue::Bool(true)]));
}

#[test]
fn read_document_takes_the_first_entry_of_a_key() {
    let doc = JsonValue::Object(vec![
        (text("model-type"), JsonValue::Text(text("TPN"))),
        (text("model"), JsonValue::Number(text("1"))),
        (text("model"), JsonValue::Number(text("2"))),
    ]);
    let read = read_document(doc).unwrap();
    assert_eq!(read.model, JsonValue::Number(text("1")));
}

#[test]
fn a_written_document_reads_back() {
    let doc = SlyDocument {
        model_type: lbl("TPN"),
        model: JsonValue::Text(text("net")),
        initial_state: Some(JsonValue::Null),
        queries: None,
    };
    let written = SLYWriter::write_document(SlyDocument {
        model_type: lbl("TPN"),
        model: JsonValue::Text(text("net")),
        initial_state: Some(JsonValue::Null),
        queries: None,
    });
    assert_eq!(
        written,
        JsonValue::Object(vec![
            (text("initial-state"), JsonValue::Null),
            (text("model"), JsonValue::Text(text("net"))),
            (text("model-type"), JsonValue::Text(text("TPN"))),
        ])
    );
    assert_eq!(read_document(written), Ok(doc));
}

#[test]
fn the_sly_loader_and_writer_describe_themselves() {
    let l = SLYLoader.get_meta();
    assert_eq!(l.name, lbl("SLYLoader"));
    assert_eq!(l.ext, lbl("sly"));
    assert_eq!(l.output, lbl("any"));
    let w = SLYWriter.get_meta();
    assert_eq!(w.name, lbl("SLYWriter"));
    assert_eq!(w.ext, lbl("sly"));
    assert_eq!(w.input, lbl("any"));
}
