//! Documents: a text with its metadata. A document is cleaned in place,
//! and divided into chunks that are documents with the same metadata.

use crate::clean::{
    ascii_only, bullet_count, clean_bullets, clean_extra_whitespace, clean_ligatures,
    clean_non_ascii_chars, expand_ligatures, ligature_count, non_ascii_count,
    normalize_whitespace, strip_bullets,
};
use crate::overlap::{merge_chars, merged_chunks};
use crate::paragraph::{
    auto_group, group_broken_paragraphs, group_bullet_paragraph, group_bullets, group_new_lines,
    new_line_grouper, regroup, regroup_broken_paragraphs,
};
use crate::pipeline::{clean_text, cleaned, lemma_cleaned_counts};
use crate::text::{chars_of, slice_of, string_of, strings, strings_of, texts};
use std::collections::HashMap;
use vstd::prelude::*;

verus! {

/// A text with its metadata.
#[derive(Debug)]
pub struct Document {
    /// The text of the document.
    pub page_content: String,
    /// What is known of the document, by key.
    pub metadata: HashMap<String, String>,
}

/// What a document holds.
pub struct DocumentView {
    /// The characters of its text.
    pub content: Seq<char>,
    /// Its metadata.
    pub metadata: Map<String, String>,
}

impl View for Document {
    type V = DocumentView;

    open spec fn view(&self) -> DocumentView {
        DocumentView { content: self.page_content@, metadata: self.metadata@ }
    }
}

impl Clone for Document {
    /// A document with the same text and the same metadata.
    fn clone(&self) -> (copy: Document)
        ensures
            copy@ == self@,
    {
        Document { page_content: self.page_content.clone(), metadata: self.metadata.clone() }
    }
}

/// Why a document is not divided.
#[derive(Clone, Copy, Debug, PartialEq, Eq)]
pub enum ConfigError {
    /// The size of a chunk is zero.
    ZeroChunkSize,
    /// The number of characters of a chunk is zero.
    ZeroWidth,
}

impl ConfigError {
    /// A sentence that says what is wrong.
    pub fn message(&self) -> (text: &'static str)
        ensures
            self is ZeroChunkSize ==> text@ == "the chunk size must be at least 1"@,
            self is ZeroWidth ==> text@ == "the number of characters must be at least 1"@,
    {
        match self {
            ConfigError::ZeroChunkSize => "the chunk size must be at least 1",
            ConfigError::ZeroWidth => "the number of characters must be at least 1",
        }
    }
}

/// What the documents hold, in their order.
pub open spec fn views(docs: Seq<Document>) -> Seq<DocumentView> {
    Seq::new(docs.len(), |i: int| docs[i]@)
}

/// The separators at which a document is divided: a blank line, a line
/// break, a space, and at last nothing, which divides between characters.
pub open spec fn separators() -> Seq<Seq<char>> {
    seq![seq!['\n', '\n'], seq!['\n'], seq![' '], Seq::empty()]
}

/// The given texts as documents with the given metadata.
pub open spec fn with_metadata(pieces: Seq<Seq<char>>, metadata: Map<String, String>) -> Seq<
    DocumentView,
> {
    Seq::new(pieces.len(), |i: int| DocumentView { content: pieces[i], metadata })
}

/// The overlapping chunks of a document.
pub open spec fn chunks_of(doc: DocumentView, chunk_size: nat) -> Seq<DocumentView> {
    with_metadata(merged_chunks(doc.content, chunk_size, separators()), doc.metadata)
}

/// The number of pieces of `width` characters that `len` characters make:
/// the last piece may hold fewer.
pub open spec fn width_count(len: nat, width: nat) -> nat {
    if width == 0 {
        0
    } else {
        ((len + width - 1) / width as int) as nat
    }
}

/// The pieces of `text` of `width` characters each: piece `k` begins at
/// character `k * width`, and the last piece holds what is left.
pub open spec fn width_pieces(text: Seq<char>, width: nat) -> Seq<Seq<char>> {
    Seq::new(
        width_count(text.len(), width),
        |k: int|
            text.subrange(
                k * width,
                if (k + 1) * width <= text.len() {
                    (k + 1) * width
                } else {
                    text.len() as int
                },
            ),
    )
}

/// The chunks of a document of `width` characters each.
pub open spec fn fixed_width_chunks(doc: DocumentView, width: nat) -> Seq<DocumentView> {
    with_metadata(width_pieces(doc.content, width), doc.metadata)
}

/// A document with the cleaned text of `doc`.
pub open spec fn cleaned_view(doc: DocumentView) -> DocumentView {
    DocumentView { content: cleaned(doc.content), metadata: doc.metadata }
}

/// The chunks of all the documents, each cleaned first: those of the first
/// document, then those of the second, and so on.
pub open spec fn batch_chunks(docs: Seq<DocumentView>, chunk_size: nat) -> Seq<DocumentView>
    decreases docs.len(),
{
    if docs.len() == 0 {
        seq![]
    } else {
        batch_chunks(docs.drop_last(), chunk_size) + chunks_of(
            cleaned_view(docs.last()),
            chunk_size,
        )
    }
}

/// Where piece `k` begins within `len` characters, there are more than `k`
/// pieces; and the piece that reaches the end is the last one.
proof fn lemma_width_count(len: int, width: int, k: int)
    requires
        width > 0,
        0 <= k,
        k * width < len,
    ensures
        k < width_count(len as nat, width as nat),
        (k + 1) * width >= len ==> width_count(len as nat, width as nat) == k + 1,
{
    let count = (len + width - 1) / width;
    assert(count * width <= len + width - 1 < count * width + width) by (nonlinear_arith)
        requires
            count == (len + width - 1) / width,
            width > 0,
    ;
    assert(k < count) by (nonlinear_arith)
        requires
            k * width < len,
            len + width - 1 < count * width + width,
            width > 0,
    ;
    if (k + 1) * width >= len {
        assert(count <= k + 1) by (nonlinear_arith)
            requires
                count * width <= len + width - 1,
                (k + 1) * width >= len,
                width > 0,
        ;
    }
}

/// The number of chunks that the first `k` documents give.
pub open spec fn chunks_before(docs: Seq<DocumentView>, chunk_size: nat, k: int) -> nat {
    batch_chunks(docs.take(k), chunk_size).len()
}

/// The chunks of documents in a row are those of the first ones, then
/// those of the later ones.
pub proof fn lemma_batch_chunks_concat(
    first: Seq<DocumentView>,
    later: Seq<DocumentView>,
    chunk_size: nat,
)
    ensures
        batch_chunks(first + later, chunk_size) == batch_chunks(first, chunk_size) + batch_chunks(
            later,
            chunk_size,
        ),
    decreases later.len(),
{
    if later.len() == 0 {
        assert(first + later =~= first);
        assert(batch_chunks(first, chunk_size) + batch_chunks(later, chunk_size) =~= batch_chunks(
            first,
            chunk_size,
        ));
    } else {
        lemma_batch_chunks_concat(first, later.drop_last(), chunk_size);
        assert((first + later).drop_last() =~= first + later.drop_last());
        assert(batch_chunks(first + later, chunk_size) =~= batch_chunks(first, chunk_size)
            + batch_chunks(later, chunk_size));
    }
}

/// The chunks of a batch stand in the order of its documents: chunk `m` of
/// document `k` stands at place `m` after all the chunks of the documents
/// before `k`, and it has the metadata of document `k`.
pub proof fn lemma_batch_keeps_document_order(
    docs: Seq<DocumentView>,
    chunk_size: nat,
    k: int,
    m: int,
)
    requires
        0 <= k < docs.len(),
        0 <= m < chunks_of(cleaned_view(docs[k]), chunk_size).len(),
    ensures
        chunks_before(docs, chunk_size, k + 1) == chunks_before(docs, chunk_size, k) + chunks_of(
            cleaned_view(docs[k]),
            chunk_size,
        ).len(),
        chunks_before(docs, chunk_size, k + 1) <= batch_chunks(docs, chunk_size).len(),
        batch_chunks(docs, chunk_size)[chunks_before(docs, chunk_size, k) + m] == chunks_of(
            cleaned_view(docs[k]),
            chunk_size,
        )[m],
        batch_chunks(docs, chunk_size)[chunks_before(docs, chunk_size, k) + m].metadata
            == docs[k].metadata,
{
    let upto = docs.take(k + 1);
    assert(upto.drop_last() =~= docs.take(k));
    assert(upto.last() == docs[k]);
    assert(docs =~= upto + docs.skip(k + 1));
    lemma_batch_chunks_concat(upto, docs.skip(k + 1), chunk_size);
}

/// The separators at which a document is divided.
fn separator_list() -> (seps: Vec<Vec<char>>)
    ensures
        texts(seps@) == separators(),
{
    let mut blank_line: Vec<char> = Vec::new();
    blank_line.push('\n');
    blank_line.push('\n');
    let mut line_break: Vec<char> = Vec::new();
    line_break.push('\n');
    let mut space: Vec<char> = Vec::new();
    space.push(' ');
    let nothing: Vec<char> = Vec::new();
    assert(blank_line@ =~= seq!['\n', '\n']);
    assert(line_break@ =~= seq!['\n']);
    assert(space@ =~= seq![' ']);
    assert(nothing@ =~= Seq::<char>::empty());
    let mut seps: Vec<Vec<char>> = Vec::new();
    seps.push(blank_line);
    seps.push(line_break);
    seps.push(space);
    seps.push(nothing);
    assert(texts(seps@) =~= separators());
    seps
}

impl Document {
    /// A document with the given text and metadata.
    pub fn new(page_content: String, metadata: HashMap<String, String>) -> (doc: Document)
        ensures
            doc.page_content == page_content,
            doc.metadata == metadata,
    {
        Document { page_content, metadata }
    }

    /// The given texts as documents with the metadata of this one.
    fn with_texts(&self, pieces: &Vec<Vec<char>>) -> (docs: Vec<Document>)
        ensures
            views(docs@) == with_metadata(texts(pieces@), self@.metadata),
    {
        let mut docs: Vec<Document> = Vec::new();
        let mut i: usize = 0;
        while i < pieces.len()
            invariant
                i <= pieces.len(),
                docs.len() == i,
                forall|j: int|
                    0 <= j < i ==> (#[trigger] docs@[j])@ == (DocumentView {
                        content: pieces@[j]@,
                        metadata: self@.metadata,
                    }),
            decreases pieces.len() - i,
        {
            let doc = Document {
                page_content: string_of(&pieces[i]),
                metadata: self.metadata.clone(),
            };
            docs.push(doc);
            i += 1;
        }
        assert(views(docs@) =~= with_metadata(texts(pieces@), self@.metadata));
        docs
    }

    /// The items of a paragraph that holds a list, each a paragraph of its
    /// own.
    pub fn _group_bullet_paragraph(paragraph: &str) -> (items: Vec<String>)
        ensures
            strings(items@) == group_bullet_paragraph(paragraph@),
    {
        strings_of(&group_bullets(&chars_of(paragraph)))
    }

    /// Takes the characters outside ASCII out of the text.
    pub fn clean_non_ascii_chars(&mut self)
        ensures
            final(self)@.content == ascii_only(old(self)@.content),
            final(self)@.metadata == old(self)@.metadata,
    {
        let text = chars_of(self.page_content.as_str());
        self.page_content = string_of(&clean_non_ascii_chars(&text));
    }

    /// Takes the bullets out of the text and trims it.
    pub fn clean_bullets(&mut self)
        ensures
            final(self)@.content == strip_bullets(old(self)@.content),
            final(self)@.metadata == old(self)@.metadata,
    {
        let text = chars_of(self.page_content.as_str());
        self.page_content = string_of(&clean_bullets(&text));
    }

    /// Writes out the ligatures of the text.
    pub fn clean_ligatures(&mut self)
        ensures
            final(self)@.content == expand_ligatures(old(self)@.content),
            final(self)@.metadata == old(self)@.metadata,
    {
        let text = chars_of(self.page_content.as_str());
        self.page_content = string_of(&clean_ligatures(&text));
    }

    /// Makes single spaces of the white space of the text and trims it.
    pub fn clean_extra_whitespace(&mut self)
        ensures
            final(self)@.content == normalize_whitespace(old(self)@.content),
            final(self)@.metadata == old(self)@.metadata,
    {
        let text = chars_of(self.page_content.as_str());
        self.page_content = string_of(&clean_extra_whitespace(&text));
    }

    /// Regroups a text whose paragraphs are parted by blank lines.
    pub fn group_broken_paragraphs(&mut self)
        ensures
            final(self)@.content == group_broken_paragraphs(old(self)@.content),
            final(self)@.metadata == old(self)@.metadata,
    {
        let text = chars_of(self.page_content.as_str());
        self.page_content = string_of(&regroup_broken_paragraphs(&text));
    }

    /// Makes one paragraph of each line of the text that is not blank.
    pub fn new_line_grouper(&mut self)
        ensures
            final(self)@.content == group_new_lines(old(self)@.content),
            final(self)@.metadata == old(self)@.metadata,
    {
        let text = chars_of(self.page_content.as_str());
        self.page_content = string_of(&new_line_grouper(&text));
    }

    /// Regroups the paragraphs of the text in the way of its style.
    pub fn auto_paragraph_grouper(&mut self)
        ensures
            final(self)@.content == auto_group(old(self)@.content),
            final(self)@.metadata == old(self)@.metadata,
    {
        let text = chars_of(self.page_content.as_str());
        self.page_content = string_of(&regroup(&text));
    }

    /// Cleans the text: white space, ligatures, bullets, characters outside
    /// ASCII and paragraphs, in this order. The cleaned text has no bullet,
    /// no ligature and no character outside ASCII.
    pub fn clean(&mut self)
        ensures
            final(self)@ == cleaned_view(old(self)@),
            bullet_count(final(self)@.content) == 0,
            ligature_count(final(self)@.content) == 0,
            non_ascii_count(final(self)@.content) == 0,
    {
        let text = chars_of(self.page_content.as_str());
        proof {
            lemma_cleaned_counts(text@);
        }
        self.page_content = string_of(&clean_text(&text));
    }

    /// Divides the document into chunks of at most `chunk_size` bytes that
    /// overlap by a third. A chunk size of zero is refused.
    pub fn recursive_character_splitter(&self, chunk_size: usize) -> (chunks: Result<
        Vec<Document>,
        ConfigError,
    >)
        ensures
            chunk_size == 0 ==> chunks == Err::<Vec<Document>, ConfigError>(
                ConfigError::ZeroChunkSize,
            ),
            chunk_size > 0 ==> chunks is Ok && views(chunks->Ok_0@) == chunks_of(
                self@,
                chunk_size as nat,
            ),
    {
        if chunk_size == 0 {
            return Err(ConfigError::ZeroChunkSize);
        }
        let text = chars_of(self.page_content.as_str());
        let pieces = merge_chars(&text, chunk_size, &separator_list());
        Ok(self.with_texts(&pieces))
    }

    /// Divides the document into chunks of `num_characters` characters;
    /// the last chunk holds what is left. A number of zero is refused.
    pub fn split_on_num_characters(&self, num_characters: u32) -> (chunks: Result<
        Vec<Document>,
        ConfigError,
    >)
        ensures
            num_characters == 0 ==> chunks == Err::<Vec<Document>, ConfigError>(
                ConfigError::ZeroWidth,
            ),
            num_characters > 0 ==> chunks is Ok && views(chunks->Ok_0@) == fixed_width_chunks(
                self@,
                num_characters as nat,
            ),
    {
        if num_characters == 0 {
            return Err(ConfigError::ZeroWidth);
        }
        let width: usize = num_characters as usize;
        let text = chars_of(self.page_content.as_str());
        let mut pieces: Vec<Vec<char>> = Vec::new();
        let mut from: usize = 0;
        assert(0 * width == 0 && (width - 1) / (width as int) == 0) by (nonlinear_arith)
            requires
                width > 0,
        ;
        while from < text.len()
            invariant
                from <= text.len(),
                width > 0,
                from < text.len() ==> from == pieces.len() * width,
                from == text.len() ==> pieces.len() == width_count(text.len() as nat, width as nat),
                pieces.len() <= width_count(text.len() as nat, width as nat),
                forall|k: int|
                    0 <= k < pieces.len() ==> (#[trigger] pieces@[k])@ == width_pieces(
                        text@,
                        width as nat,
                    )[k],
            decreases text.len() - from,
        {
            let ghost k = pieces.len() as int;
            let ghost len = text.len() as int;
            let to: usize = if width >= text.len() - from {
                text.len()
            } else {
                from + width
            };
            proof {
                assert((k + 1) * width == k * width + width) by (nonlinear_arith);
                lemma_width_count(len, width as int, k);
            }
            let piece = slice_of(&text, from, to);
            pieces.push(piece);
            from = to;
        }
        assert(texts(pieces@) =~= width_pieces(text@, width as nat));
        Ok(self.with_texts(&pieces))
    }

    /// Cleans a copy of the document and divides it into overlapping
    /// chunks. A chunk size of zero is refused.
    pub fn clean_and_split(&self, chunk_size: usize) -> (chunks: Result<Vec<Document>, ConfigError>)
        ensures
            chunk_size == 0 ==> chunks == Err::<Vec<Document>, ConfigError>(
                ConfigError::ZeroChunkSize,
            ),
            chunk_size > 0 ==> chunks is Ok && views(chunks->Ok_0@) == chunks_of(
                cleaned_view(self@),
                chunk_size as nat,
            ),
    {
        if chunk_size == 0 {
            return Err(ConfigError::ZeroChunkSize);
        }
        let text = chars_of(self.page_content.as_str());
        let clean = clean_text(&text);
        let pieces = merge_chars(&clean, chunk_size, &separator_list());
        Ok(self.with_texts(&pieces))
    }
}

/// Cleans every document and divides it into overlapping chunks: the
/// chunks of the first document come first, then those of the second, and
/// so on. A chunk size of zero is refused.
pub fn clean_and_split_docs(docs: &Vec<Document>, chunk_size: usize) -> (chunks: Result<
    Vec<Document>,
    ConfigError,
>)
    ensures
        chunk_size == 0 ==> chunks == Err::<Vec<Document>, ConfigError>(ConfigError::ZeroChunkSize),
        chunk_size > 0 ==> chunks is Ok && views(chunks->Ok_0@) == batch_chunks(
            views(docs@),
            chunk_size as nat,
        ),
{
    if chunk_size == 0 {
        return Err(ConfigError::ZeroChunkSize);
    }
    let ghost all = views(docs@);
    let mut out: Vec<Document> = Vec::new();
    let mut i: usize = 0;
    assert(views(out@) =~= batch_chunks(all.take(0), chunk_size as nat));
    while i < docs.len()
        invariant
            i <= docs.len(),
            chunk_size > 0,
            all == views(docs@),
            views(out@) == batch_chunks(all.take(i as int), chunk_size as nat),
        decreases docs.len() - i,
    {
        let ghost before = views(out@);
        assert(all.take(i + 1).drop_last() =~= all.take(i as int));
        assert(all.take(i + 1).last() == docs@[i as int]@);
        match docs[i].clean_and_split(chunk_size) {
            Ok(mut more) => {
                let ghost added = views(more@);
                out.append(&mut more);
                assert(views(out@) =~= before + added);
            },
            Err(e) => {
                return Err(e);
            },
        }
        i += 1;
    }
    assert(all.take(docs.len() as int) =~= all);
    Ok(out)
}

} // verus!
