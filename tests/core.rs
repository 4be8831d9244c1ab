use web_processor::archive::{parse_size_field, process_tar_archive};
use web_processor::collection::PaperProcessor;
use web_processor::document::{
    assemble_paper, filename_slug, process_document_parts, read_document, Author, Metadata, Warning,
};
use web_processor::frontmatter::split_frontmatter;
use web_processor::render::{add_heading_ids, markdown_to_html, slugify};
use web_processor::sections::{extract_toc, get_section, parse_markdown_sections};

fn header(name: &str, size_field: &[u8]) -> Vec<u8> {
    let mut h = vec![0u8; 512];
    h[..name.len()].copy_from_slice(name.as_bytes());
    h[124..124 + size_field.len()].copy_from_slice(size_field);
    h
}

fn padded(content: &[u8]) -> Vec<u8> {
    let mut v = content.to_vec();
    while v.len() % 512 != 0 {
        v.push(0);
    }
    v
}

fn names_and_contents(data: &[u8]) -> Vec<(String, String)> {
    process_tar_archive(data)
        .into_iter()
        .map(|e| (e.filename, e.content))
        .collect()
}

#[test]
fn slugify_examples() {
    assert_eq!(slugify("Foo, Bar!"), "foo-bar");
    assert_eq!(slugify("A B"), "a-b");
    assert_eq!(slugify("What? (Really) [x] {y}: \"q\" 'r'; s."), "what-really-x-y-q-r-s");
    assert_eq!(slugify("Same Text"), slugify("Same Text"));
}

#[test]
fn toc_and_sections_example() {
    let body = "## Table of Contents\n1. **Intro**\n2. **Methods**\n## Summary\nHello";
    assert_eq!(extract_toc(body), vec!["Intro".to_string(), "Methods".to_string()]);
    let secs = parse_markdown_sections(body);
    assert_eq!(get_section(&secs, &"summary".to_string()), Some("Hello".to_string()));
    assert_eq!(
        secs,
        vec![
            ("table of contents".to_string(), "1. **Intro**\n2. **Methods**".to_string()),
            ("summary".to_string(), "Hello".to_string()),
        ]
    );
}

#[test]
fn toc_absent_and_odd_lines() {
    assert!(extract_toc("## Summary\n1. **Intro**").is_empty());
    let body = "intro\n## Table of Contents\n  1. **Indented**\n3.**NoSpace**\n10.  **Ten** rest **x**\n- **Bullet**\n### Deeper\n4. **Four**\n## Next\n5. **Five**";
    assert_eq!(extract_toc(body), vec!["Ten".to_string(), "Four".to_string()]);
}

#[test]
fn sections_duplicates_and_preamble() {
    let body = "preamble\n## Abstract\n\n  first  \n\n## Other\nx\n## abstract\nsecond\r\nline\n";
    let secs = parse_markdown_sections(body);
    assert_eq!(secs.len(), 3);
    assert_eq!(get_section(&secs, &"abstract".to_string()), Some("second\nline".to_string()));
    assert_eq!(secs[0], ("abstract".to_string(), "first".to_string()));
    assert_eq!(get_section(&secs, &"missing".to_string()), None);
    assert!(parse_markdown_sections("no headings here\n").is_empty());
}

#[test]
fn section_extraction_is_idempotent_on_trimmed_content() {
    let content = "line one\n\nline two";
    let secs = parse_markdown_sections(&format!("## summary\n{}", content));
    assert_eq!(get_section(&secs, &"summary".to_string()), Some(content.to_string()));
}

#[test]
fn archive_round_trip() {
    let mut data = header("doc.md", b"00000000012\0");
    data.extend(padded(b"0123456789"));
    assert_eq!(
        names_and_contents(&data),
        vec![("doc.md".to_string(), "0123456789".to_string())]
    );
}

#[test]
fn archive_stops_at_first_zero_block() {
    let mut data = header("a.md", b"3 ");
    data.extend(padded(b"abc"));
    data.extend(vec![0u8; 512]);
    data.extend(header("b.md", b"3 "));
    data.extend(padded(b"def"));
    assert_eq!(names_and_contents(&data), vec![("a.md".to_string(), "abc".to_string())]);
}

#[test]
fn archive_skipped_entries_keep_alignment() {
    let mut data = header("image.png", b"1000\0");
    data.extend(padded(&[7u8; 512]));
    data.extend(header("empty.md", b"0\0"));
    data.extend(header("bad.md", b"zz\0"));
    data.extend(header("next.md", b"5\0"));
    data.extend(padded(b"hello"));
    assert_eq!(names_and_contents(&data), vec![("next.md".to_string(), "hello".to_string())]);
}

#[test]
fn archive_truncated_content_and_short_tail() {
    let mut data = header("cut.md", b"2000\0");
    data.extend(vec![b'x'; 100]);
    assert!(names_and_contents(&data).is_empty());
    let mut data = header("a.md", b"1\0");
    data.extend(padded(b"z"));
    data.extend(vec![1u8; 100]);
    assert_eq!(names_and_contents(&data), vec![("a.md".to_string(), "z".to_string())]);
    assert!(names_and_contents(&[]).is_empty());
}

#[test]
fn archive_lossy_name_and_full_name_field() {
    let mut data = vec![b'n'; 97];
    data.extend(b".md");
    data.extend(vec![0u8; 24]);
    data.extend(b"2\0");
    data.extend(vec![0u8; 512 - 126]);
    data.extend(padded(&[0xff, b'k']));
    let out = names_and_contents(&data);
    assert_eq!(out.len(), 1);
    assert_eq!(out[0].0.len(), 100);
    assert_eq!(out[0].1, "\u{fffd}k");
}

#[test]
fn size_field_parsing() {
    assert_eq!(parse_size_field(b"00000000012"), 10);
    assert_eq!(parse_size_field(b"+17"), 15);
    assert_eq!(parse_size_field(b""), 0);
    assert_eq!(parse_size_field(b"+"), 0);
    assert_eq!(parse_size_field(b"-1"), 0);
    assert_eq!(parse_size_field(b"8"), 0);
    assert_eq!(parse_size_field(b"777777777777"), 68719476735);
}

#[test]
fn heading_ids_added() {
    assert_eq!(
        add_heading_ids("<p>x</p>\n<h2>Foo, Bar!</h2>\n<h3>A B</h3>"),
        "<p>x</p>\n<h2 id=\"foo-bar\">Foo, Bar!</h2>\n<h3 id=\"a-b\">A B</h3>"
    );
    assert_eq!(add_heading_ids("<h1><em>x</em> y</h1>"), "<h1 id=\"x-y\"><em>x</em> y</h1>");
    assert_eq!(add_heading_ids("<h2>x</h3>"), "<h2 id=\"x\">x</h3>");
    assert_eq!(add_heading_ids("<h2></h2><p>a</p>"), "<h2></h2><p>a</p>");
    assert_eq!(
        add_heading_ids("<h2>Dup</h2><h2>Dup</h2>"),
        "<h2 id=\"dup\">Dup</h2><h2 id=\"dup\">Dup</h2>"
    );
}

#[test]
fn markdown_rendered_with_anchors() {
    assert_eq!(markdown_to_html("# Hello World"), "<h1 id=\"hello-world\">Hello World</h1>\n");
    assert_eq!(markdown_to_html("~~gone~~"), "<p><del>gone</del></p>\n");
    assert_eq!(
        markdown_to_html("## Use `code`"),
        "<h2 id=\"use-code\">Use <code>code</code></h2>\n"
    );
}

#[test]
fn frontmatter_split() {
    assert_eq!(
        split_frontmatter("---\ntitle: X\n---\nbody\n"),
        Some(("title: X".to_string(), "body\n".to_string()))
    );
    assert_eq!(
        split_frontmatter("---  \n\na: 1\n---\t\n\nrest"),
        Some(("a: 1".to_string(), "rest".to_string()))
    );
    assert_eq!(split_frontmatter("# no block\n"), None);
    assert_eq!(split_frontmatter("---\nnever closed\n"), None);
    let parts = read_document("plain text");
    assert!(parts.metadata_text.is_none());
    assert_eq!(parts.body, "plain text");
}

#[test]
fn slug_from_filename() {
    assert_eq!(filename_slug("paper.md"), "paper");
    assert_eq!(filename_slug("notes.txt"), "notes.txt");
    assert_eq!(filename_slug(".md"), "");
}

#[test]
fn assembly_with_fallbacks() {
    let (paper, warnings) = assemble_paper(
        "p1.md",
        Metadata::empty(),
        "## Abstract\nAbs".to_string(),
        "2024-01-01T00:00:00.000Z".to_string(),
    );
    assert_eq!(paper.title, "p1");
    assert_eq!(paper.slug, "p1");
    assert_eq!(paper.filename, "p1.md");
    assert_eq!(paper.summary, "No summary available");
    assert_eq!(paper.abstract_text, "Abs");
    assert!(paper.toc.is_empty());
    assert_eq!(paper.last_updated, "2024-01-01T00:00:00.000Z");
    assert!(paper.authors.is_empty());
    assert!(paper.tags.is_none());
    assert_eq!(warnings.len(), 1);
    assert!(matches!(&warnings[0], Warning::MissingTitle { filename } if filename == "p1.md"));
}

#[test]
fn assembly_uses_metadata() {
    let mut meta = Metadata::empty();
    meta.title = Some("Title".to_string());
    meta.toc = Some(vec!["One".to_string()]);
    meta.last_updated = Some("2023-05-05".to_string());
    meta.authors = Some(vec![Author { name: "Ann".to_string(), affiliation: None }]);
    meta.tags = Some(vec!["ml".to_string()]);
    meta.status = Some("draft".to_string());
    let (paper, warnings) =
        assemble_paper("x", meta, "## Summary\nS".to_string(), "now".to_string());
    assert_eq!(paper.title, "Title");
    assert_eq!(paper.slug, "x");
    assert_eq!(paper.summary, "S");
    assert_eq!(paper.toc, vec!["One".to_string()]);
    assert_eq!(paper.last_updated, "2023-05-05");
    assert_eq!(paper.authors.len(), 1);
    assert_eq!(paper.status, Some("draft".to_string()));
    assert!(warnings.is_empty());
}

#[test]
fn document_without_block_warns_once() {
    let parts = read_document("## Summary\nHi");
    let (paper, warnings) =
        process_document_parts("d.md", parts, Metadata::empty(), "t".to_string());
    assert_eq!(paper.title, "d");
    assert_eq!(paper.summary, "Hi");
    assert_eq!(warnings.len(), 2);
    assert!(matches!(warnings[0], Warning::NoMetadataBlock));
    let no_block = warnings.iter().filter(|w| matches!(w, Warning::NoMetadataBlock)).count();
    assert_eq!(no_block, 1);
}

#[test]
fn collection_operations() {
    let mut c = PaperProcessor::new();
    for (name, tags) in [("a.md", vec!["x", "y"]), ("b.md", vec!["y", "z"]), ("c.md", vec![])] {
        let mut meta = Metadata::empty();
        meta.tags = Some(tags.into_iter().map(|t| t.to_string()).collect());
        let (p, _) = assemble_paper(name, meta, String::new(), "t".to_string());
        c.add_paper(p);
    }
    assert_eq!(c.get_paper_count(), 3);
    assert_eq!(c.get_paper_slugs(), vec!["a".to_string(), "b".to_string(), "c".to_string()]);
    assert_eq!(c.get_paper_by_slug("b"), Some(1));
    assert_eq!(c.get_paper_by_slug("q"), None);
    assert_eq!(
        c.extract_categories(),
        vec!["x".to_string(), "y".to_string(), "z".to_string()]
    );
    c.clear();
    assert_eq!(c.get_paper_count(), 0);
}

#[test]
fn toc_reads_unicode_decimal_digits() {
    let body = "## Table of Contents\n\u{661}. **x**\n\u{966}\u{967}. **y**\n\u{bc}. **z**";
    assert_eq!(extract_toc(body), vec!["x".to_string(), "y".to_string()]);
}

#[test]
fn heading_ids_with_unicode_level_digit() {
    assert_eq!(
        add_heading_ids("<h\u{662}>A B</h\u{662}>"),
        "<h\u{662} id=\"a-b\">A B</h\u{662}>"
    );
}

#[test]
fn trim_uses_unicode_whitespace() {
    let secs = parse_markdown_sections("## Summary\n\u{3000}\u{a0}Hello\u{2028}\n");
    assert_eq!(get_section(&secs, &"summary".to_string()), Some("Hello".to_string()));
    let secs = parse_markdown_sections("## Summary\n\u{200b}x");
    assert_eq!(get_section(&secs, &"summary".to_string()), Some("\u{200b}x".to_string()));
}

#[test]
fn categories_sorted_and_distinct() {
    let mut c = PaperProcessor::new();
    for (name, tags) in [("a.md", Some(vec!["b", "a"])), ("b.md", None), ("c.md", Some(vec!["a", "c"]))] {
        let mut meta = Metadata::empty();
        meta.tags = tags.map(|v| v.into_iter().map(|t| t.to_string()).collect());
        let (p, _) = assemble_paper(name, meta, String::new(), "t".to_string());
        c.add_paper(p);
    }
    assert_eq!(
        c.extract_categories(),
        vec!["a".to_string(), "b".to_string(), "c".to_string()]
    );
    let mut d = PaperProcessor::new();
    let mut meta = Metadata::empty();
    meta.tags = Some(vec!["b".to_string(), "B".to_string(), "ab".to_string(), "a".to_string(), "\u{e9}".to_string()]);
    let (p, _) = assemble_paper("x.md", meta, String::new(), "t".to_string());
    d.add_paper(p);
    assert_eq!(
        d.extract_categories(),
        vec!["B".to_string(), "a".to_string(), "ab".to_string(), "b".to_string(), "\u{e9}".to_string()]
    );
}
