use vstd::prelude::*;
use crate::render::{cmark_html_of, markdown_to_html, with_heading_ids};
use crate::sections::{extract_toc, get_section, pairs_view, parse_markdown_sections, section_lookup, sections_of, toc_of};
use crate::frontmatter::{split_frontmatter, split_of};
use crate::text::{chars_of, copy_range, ends_with, ends_with_md, md_suffix, string_of};

verus! {

#[verifier::external_type_specification]
#[verifier::external_body]
pub struct ExJsonValue(serde_json::Value);

/// An author of a document.
pub struct Author {
    pub name: String,
    pub affiliation: Option<String>,
}

/// What a document's metadata block says; every field may be absent.
pub struct Metadata {
    pub title: Option<String>,
    pub authors: Option<Vec<Author>>,
    pub tags: Option<Vec<String>>,
    pub status: Option<String>,
    pub last_updated: Option<String>,
    pub toc: Option<Vec<String>>,
    /// Fields outside the known set, by name, with their values as they were.
    pub extra: Vec<(String, serde_json::Value)>,
}

/// No two extra fields share a name, as in the mapping they were read from.
pub open spec fn extra_names_distinct(extra: Seq<(String, serde_json::Value)>) -> bool {
    forall|i: int, j: int| 0 <= i < j < extra.len() ==> (#[trigger] extra[i]).0@ != (#[trigger] extra[j]).0@
}

impl Metadata {
    /// The metadata is well formed: its extra fields have distinct names.
    pub open spec fn wf(&self) -> bool {
        extra_names_distinct(self.extra@)
    }

    /// Metadata with every field absent.
    pub fn empty() -> (r: Metadata)
        ensures
            r.title is None,
            r.authors is None,
            r.tags is None,
            r.status is None,
            r.last_updated is None,
            r.toc is None,
            r.extra@.len() == 0,
            r.wf(),
    {
        Metadata {
            title: None,
            authors: None,
            tags: None,
            status: None,
            last_updated: None,
            toc: None,
            extra: Vec::new(),
        }
    }
}

/// The record made from one document.
pub struct Paper {
    pub title: String,
    pub slug: String,
    pub filename: String,
    pub summary: String,
    pub abstract_text: String,
    pub toc: Vec<String>,
    pub content: String,
    pub html: String,
    pub last_updated: String,
    pub authors: Vec<Author>,
    pub tags: Option<Vec<String>>,
    pub status: Option<String>,
    pub extra: Vec<(String, serde_json::Value)>,
}

/// A set of records together with the categories (tags) found in them.
pub struct ProcessedContent {
    pub papers: Vec<Paper>,
    pub categories: Vec<String>,
}

/// An advisory message raised while a document is processed.
pub enum Warning {
    /// The document has no metadata block.
    NoMetadataBlock,
    /// The metadata gives no title; the document's file name is attached.
    MissingTitle { filename: String },
}

/// The warning says that the document of the given file name has no title.
pub open spec fn warns_missing_title(w: Warning, filename: Seq<char>) -> bool {
    match w {
        Warning::MissingTitle { filename: f } => f@ == filename,
        _ => false,
    }
}

/// A document split into its metadata block, if it has one, and its body.
pub struct DocumentParts {
    pub metadata_text: Option<String>,
    pub body: String,
}

pub open spec fn strings_view(v: Seq<String>) -> Seq<Seq<char>> {
    v.map_values(|t: String| t@)
}

pub open spec fn opt_view(o: Option<String>) -> Option<Seq<char>> {
    match o {
        Some(s) => Some(s@),
        None => None,
    }
}

/// The slug of a file name: the name without a trailing `.md`.
pub open spec fn slug_of(filename: Seq<char>) -> Seq<char> {
    if ends_with(filename, md_suffix()) {
        filename.subrange(0, filename.len() - 3)
    } else {
        filename
    }
}

pub open spec fn summary_key() -> Seq<char> {
    seq!['s', 'u', 'm', 'm', 'a', 'r', 'y']
}

pub open spec fn abstract_key() -> Seq<char> {
    seq!['a', 'b', 's', 't', 'r', 'a', 'c', 't']
}

/// The summary used where a document has no summary section.
pub open spec fn no_summary() -> Seq<char> {
    seq![
        'N', 'o', ' ', 's', 'u', 'm', 'm', 'a', 'r', 'y', ' ', 'a', 'v', 'a', 'i', 'l', 'a', 'b', 'l', 'e'
    ]
}

/// The summary of a body: its `summary` section, or the placeholder.
pub open spec fn summary_of(body: Seq<char>) -> Seq<char> {
    match section_lookup(sections_of(body), summary_key()) {
        Some(c) => c,
        None => no_summary(),
    }
}

/// The abstract of a body: its `abstract` section, or nothing.
pub open spec fn abstract_of(body: Seq<char>) -> Seq<char> {
    match section_lookup(sections_of(body), abstract_key()) {
        Some(c) => c,
        None => seq![],
    }
}

/// The table of contents of a record: the one in the body where it has items, else the
/// one in the metadata, else none.
pub open spec fn toc_choice(body: Seq<char>, meta_toc: Option<Vec<String>>) -> Seq<Seq<char>> {
    if toc_of(body).len() > 0 {
        toc_of(body)
    } else {
        match meta_toc {
            Some(v) => strings_view(v@),
            None => seq![],
        }
    }
}

/// Splits a document into its metadata block and its body; a document without a block
/// is all body.
pub fn read_document(content: &str) -> (r: DocumentParts)
    ensures
        match split_of(content@) {
            Some(p) => opt_view(r.metadata_text) == Some(p.0) && r.body@ == p.1,
            None => r.metadata_text is None && r.body@ == content@,
        },
{
    match split_frontmatter(content) {
        Some(p) => DocumentParts { metadata_text: Some(p.0), body: p.1 },
        None => DocumentParts { metadata_text: None, body: content.to_owned() },
    }
}

/// The slug of a file name: the name without a trailing `.md`.
pub fn filename_slug(filename: &str) -> (r: String)
    ensures
        r@ == slug_of(filename@),
{
    let cs = chars_of(filename);
    if ends_with_md(&cs) {
        let stem = copy_range(&cs, 0, cs.len() - 3);
        string_of(stem.as_slice())
    } else {
        filename.to_owned()
    }
}

fn chars_to_string(v: Vec<char>) -> (r: String)
    ensures
        r@ == v@,
{
    string_of(v.as_slice())
}

/// Builds the record of a document from its file name, its metadata, its body and the
/// time to use where the metadata gives none, with the warnings that go with it.
pub fn assemble_paper(filename: &str, metadata: Metadata, body: String, now: String) -> (r: (
    Paper,
    Vec<Warning>,
))
    ensures
        r.0.slug@ == slug_of(filename@),
        r.0.title@ == match metadata.title {
            Some(t) => t@,
            None => slug_of(filename@),
        },
        r.0.filename@ == filename@,
        r.0.summary@ == summary_of(body@),
        r.0.abstract_text@ == abstract_of(body@),
        strings_view(r.0.toc@) == toc_choice(body@, metadata.toc),
        r.0.content@ == body@,
        r.0.html@ == with_heading_ids(cmark_html_of(body@)),
        r.0.last_updated@ == match metadata.last_updated {
            Some(t) => t@,
            None => now@,
        },
        r.0.authors@ == match metadata.authors {
            Some(a) => a@,
            None => Seq::<Author>::empty(),
        },
        r.0.tags == metadata.tags,
        r.0.status == metadata.status,
        r.0.extra == metadata.extra,
        metadata.wf() ==> extra_names_distinct(r.0.extra@),
        metadata.title is None ==> r.1@.len() == 1 && warns_missing_title(r.1@[0], filename@),
        metadata.title is Some ==> r.1@.len() == 0,
{
    let sections = parse_markdown_sections(body.as_str());
    let toc = extract_toc(body.as_str());
    let slug = filename_slug(filename);
    let mut warnings: Vec<Warning> = Vec::new();
    let title = match metadata.title {
        Some(t) => t,
        None => {
            warnings.push(Warning::MissingTitle { filename: filename.to_owned() });
            slug.clone()
        },
    };
    let summary_k = chars_to_string(vec!['s', 'u', 'm', 'm', 'a', 'r', 'y']);
    let summary = match get_section(&sections, &summary_k) {
        Some(c) => c,
        None => chars_to_string(
            vec!['N', 'o', ' ', 's', 'u', 'm', 'm', 'a', 'r', 'y', ' ', 'a', 'v', 'a', 'i', 'l', 'a', 'b', 'l', 'e'],
        ),
    };
    let abstract_k = chars_to_string(vec!['a', 'b', 's', 't', 'r', 'a', 'c', 't']);
    let abstract_text = match get_section(&sections, &abstract_k) {
        Some(c) => c,
        None => String::new(),
    };
    let toc = if toc.len() > 0 {
        toc
    } else {
        match metadata.toc {
            Some(v) => v,
            None => Vec::new(),
        }
    };
    let html = markdown_to_html(body.as_str());
    let last_updated = match metadata.last_updated {
        Some(t) => t,
        None => now,
    };
    let authors = match metadata.authors {
        Some(a) => a,
        None => Vec::new(),
    };
    let paper = Paper {
        title,
        slug,
        filename: filename.to_owned(),
        summary,
        abstract_text,
        toc,
        content: body,
        html,
        last_updated,
        authors,
        tags: metadata.tags,
        status: metadata.status,
        extra: metadata.extra,
    };
    (paper, warnings)
}

/// The number of warnings that say a document has no metadata block.
pub open spec fn count_no_block(ws: Seq<Warning>) -> nat
    decreases ws.len(),
{
    if ws.len() == 0 {
        0
    } else {
        count_no_block(ws.drop_last()) + if ws.last() is NoMetadataBlock {
            1nat
        } else {
            0nat
        }
    }
}

/// Builds the record of a split document from its parts and the metadata read from its
/// block (empty where it has none). A document without a block raises one warning that
/// says so, before any other.
pub fn process_document_parts(filename: &str, parts: DocumentParts, metadata: Metadata, now: String) -> (r: (
    Paper,
    Vec<Warning>,
))
    ensures
        r.0.slug@ == slug_of(filename@),
        r.0.title@ == match metadata.title {
            Some(t) => t@,
            None => slug_of(filename@),
        },
        r.0.filename@ == filename@,
        r.0.summary@ == summary_of(parts.body@),
        r.0.abstract_text@ == abstract_of(parts.body@),
        strings_view(r.0.toc@) == toc_choice(parts.body@, metadata.toc),
        r.0.content@ == parts.body@,
        r.0.html@ == with_heading_ids(cmark_html_of(parts.body@)),
        r.0.last_updated@ == match metadata.last_updated {
            Some(t) => t@,
            None => now@,
        },
        r.0.authors@ == match metadata.authors {
            Some(a) => a@,
            None => Seq::<Author>::empty(),
        },
        r.0.tags == metadata.tags,
        r.0.status == metadata.status,
        r.0.extra == metadata.extra,
        metadata.wf() ==> extra_names_distinct(r.0.extra@),
        count_no_block(r.1@) == if parts.metadata_text is None { 1nat } else { 0nat },
        parts.metadata_text is None ==> r.1@[0] is NoMetadataBlock,
        r.1@.len() == (if parts.metadata_text is None { 1int } else { 0int }) + (if metadata.title is None { 1int } else { 0int }),
        metadata.title is None ==> warns_missing_title(r.1@.last(), filename@),
{
    let ghost no_block = parts.metadata_text is None;
    let (paper, more) = assemble_paper(filename, metadata, parts.body, now);
    let mut warnings: Vec<Warning> = Vec::new();
    if parts.metadata_text.is_none() {
        warnings.push(Warning::NoMetadataBlock);
    }
    let ghost first = warnings@;
    let mut more = more;
    let ghost m = more@;
    match more.pop() {
        Some(w) => {
            warnings.push(w);
        },
        None => {},
    }
    proof {
        assert(warnings@ =~= first + m);
        let ws = warnings@;
        if no_block {
            assert(first =~= seq![Warning::NoMetadataBlock]);
            assert(first.drop_last() =~= Seq::<Warning>::empty());
            assert(count_no_block(Seq::<Warning>::empty()) == 0);
            assert(count_no_block(first) == 1);
            if m.len() == 1 {
                assert(ws.drop_last() =~= first);
                assert(!(ws.last() is NoMetadataBlock));
            } else {
                assert(ws =~= first);
            }
        } else {
            assert(first.len() == 0);
            if m.len() == 1 {
                assert(ws.drop_last() =~= Seq::<Warning>::empty());
                assert(count_no_block(Seq::<Warning>::empty()) == 0);
                assert(!(ws.last() is NoMetadataBlock));
            } else {
                assert(ws.len() == 0);
            }
        }
    }
    (paper, warnings)
}

} // verus!
