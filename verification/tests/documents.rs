use rs_document::document::{clean_and_split_docs, ConfigError, Document};
use std::collections::HashMap;

fn meta(id: &str) -> HashMap<String, String> {
    let mut m = HashMap::new();
    m.insert("id".to_string(), id.to_string());
    m
}

fn contents(docs: &[Document]) -> Vec<String> {
    docs.iter().map(|d| d.page_content.clone()).collect()
}

#[test]
fn a_new_document_holds_what_it_was_given() {
    let d = Document::new("text".to_string(), meta("1"));
    assert_eq!(d.page_content, "text");
    assert_eq!(d.metadata, meta("1"));
}

#[test]
fn fixed_width_chunks_hold_three_characters_each() {
    let d = Document::new("abcdefg".to_string(), meta("1"));
    let chunks = d.split_on_num_characters(3).unwrap();
    assert_eq!(contents(&chunks), vec!["abc", "def", "g"]);
    assert!(chunks.iter().all(|c| c.metadata == meta("1")));
}

#[test]
fn fixed_width_counts_characters_and_not_bytes() {
    let d = Document::new("\u{e9}\u{20ac}\u{1F98A}ab".to_string(), meta("1"));
    let chunks = d.split_on_num_characters(2).unwrap();
    assert_eq!(contents(&chunks), vec!["\u{e9}\u{20ac}", "\u{1F98A}a", "b"]);
}

#[test]
fn fixed_width_of_an_exact_multiple_has_no_short_chunk() {
    let d = Document::new("abcdef".to_string(), HashMap::new());
    assert_eq!(contents(&d.split_on_num_characters(3).unwrap()), vec!["abc", "def"]);
    assert_eq!(contents(&d.split_on_num_characters(6).unwrap()), vec!["abcdef"]);
    assert_eq!(contents(&d.split_on_num_characters(7).unwrap()), vec!["abcdef"]);
    let empty = Document::new(String::new(), HashMap::new());
    assert_eq!(contents(&empty.split_on_num_characters(3).unwrap()), Vec::<String>::new());
}

#[test]
fn a_width_of_zero_is_refused() {
    let d = Document::new("abc".to_string(), HashMap::new());
    assert_eq!(d.split_on_num_characters(0).unwrap_err(), ConfigError::ZeroWidth);
}

#[test]
fn a_chunk_size_of_zero_is_refused() {
    let d = Document::new("abc".to_string(), HashMap::new());
    assert_eq!(d.recursive_character_splitter(0).unwrap_err(), ConfigError::ZeroChunkSize);
    assert_eq!(d.clean_and_split(0).unwrap_err(), ConfigError::ZeroChunkSize);
    assert_eq!(clean_and_split_docs(&vec![d], 0).unwrap_err(), ConfigError::ZeroChunkSize);
    assert_eq!(clean_and_split_docs(&Vec::new(), 0).unwrap_err(), ConfigError::ZeroChunkSize);
}

#[test]
fn an_error_says_what_is_wrong() {
    assert_eq!(ConfigError::ZeroChunkSize.message(), "the chunk size must be at least 1");
    assert_eq!(ConfigError::ZeroWidth.message(), "the number of characters must be at least 1");
}

#[test]
fn chunks_carry_the_metadata_of_their_document() {
    let d = Document::new("A\n\nB\n\nC\n\nD\n\nE\n\nF\n\nG".to_string(), meta("7"));
    let chunks = d.recursive_character_splitter(3).unwrap();
    assert_eq!(contents(&chunks), vec!["ABC", "CDE", "EFG"]);
    assert!(chunks.iter().all(|c| c.metadata == meta("7")));
    assert_eq!(d.page_content, "A\n\nB\n\nC\n\nD\n\nE\n\nF\n\nG");
}

#[test]
fn the_splitter_does_not_clean() {
    let d = Document::new("a  \u{2022}b".to_string(), HashMap::new());
    let chunks = d.recursive_character_splitter(30).unwrap();
    assert_eq!(contents(&chunks), vec!["a  \u{2022}b"]);
}

#[test]
fn a_batch_keeps_the_order_of_its_documents() {
    let docs = vec![
        Document::new("one   two three four".to_string(), meta("a")),
        Document::new(String::new(), meta("b")),
        Document::new("\u{2022} five six seven eight nine".to_string(), meta("c")),
        Document::new("ten".to_string(), meta("d")),
    ];
    let chunks = clean_and_split_docs(&docs, 18).unwrap();
    let ids: Vec<String> = chunks.iter().map(|c| c.metadata["id"].clone()).collect();
    assert_eq!(ids, vec!["a", "a", "c", "c", "d"]);
    assert_eq!(contents(&chunks), vec!["onetwothree", "threefour", "fivesixseven", "seveneightnine", "ten"]);
}

#[test]
fn a_batch_is_its_documents_one_after_the_other() {
    let docs = vec![
        Document::new("The bene\u{FB01}ts   are high".to_string(), meta("a")),
        Document::new("x\r\ny".to_string(), meta("b")),
    ];
    let chunks = clean_and_split_docs(&docs, 9).unwrap();
    let mut expected = Vec::new();
    for d in &docs {
        expected.extend(d.clean_and_split(9).unwrap());
    }
    assert_eq!(contents(&chunks), contents(&expected));
    assert_eq!(chunks.len(), expected.len());
    for (got, want) in chunks.iter().zip(expected.iter()) {
        assert_eq!(got.metadata, want.metadata);
    }
    assert_eq!(docs[0].page_content, "The bene\u{FB01}ts   are high");
}

#[test]
fn cleaning_and_splitting_is_cleaning_then_splitting() {
    let d = Document::new("\u{25cf} alpha   beta\ngamma".to_string(), meta("z"));
    let together = d.clean_and_split(9).unwrap();
    let mut copy = d.clone();
    copy.clean();
    assert_eq!(copy.page_content, "alpha beta gamma");
    let apart = copy.recursive_character_splitter(9).unwrap();
    assert_eq!(contents(&together), contents(&apart));
    assert_eq!(contents(&together), vec!["alphabet", "betagam", "gamma"]);
}

#[test]
fn an_empty_batch_has_no_chunks() {
    assert_eq!(clean_and_split_docs(&Vec::new(), 5).unwrap().len(), 0);
}
