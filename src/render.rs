use vstd::prelude::*;
use crate::text::{chars_of, lower_of, string_of, to_lower};
use crate::sections::{decimal_digit, is_decimal_digit};

verus! {

/// The punctuation that a heading identifier drops.
pub open spec fn is_dropped(c: char) -> bool {
    c == '!' || c == '?' || c == ':' || c == ';' || c == ',' || c == '.' || c == '"' || c == '\''
        || c == '(' || c == ')' || c == '[' || c == ']' || c == '{' || c == '}'
}

/// `s` with each space turned into a hyphen and the dropped punctuation removed.
pub open spec fn slug_chars(s: Seq<char>) -> Seq<char>
    decreases s.len(),
{
    if s.len() == 0 {
        seq![]
    } else {
        slug_chars(s.drop_last()) + if s.last() == ' ' {
            seq!['-']
        } else if is_dropped(s.last()) {
            seq![]
        } else {
            seq![s.last()]
        }
    }
}

/// The identifier of a heading with the given text.
pub open spec fn heading_id(text: Seq<char>) -> Seq<char> {
    slug_chars(lower_of(text))
}

/// Turns spaces into hyphens and drops punctuation, on text already lowercased.
pub fn slug_of_lowered(s: &Vec<char>) -> (r: Vec<char>)
    ensures
        r@ == slug_chars(s@),
{
    let mut out: Vec<char> = Vec::new();
    let mut i: usize = 0;
    while i < s.len()
        invariant
            i <= s@.len(),
            out@ == slug_chars(s@.take(i as int)),
        decreases s@.len() - i,
    {
        let c = s[i];
        assert(s@.take(i + 1).drop_last() =~= s@.take(i as int));
        if c == ' ' {
            out.push('-');
        } else if !(c == '!' || c == '?' || c == ':' || c == ';' || c == ',' || c == '.' || c == '"'
            || c == '\'' || c == '(' || c == ')' || c == '[' || c == ']' || c == '{' || c == '}') {
            out.push(c);
        }
        assert(out@ =~= slug_chars(s@.take(i + 1)));
        i = i + 1;
    }
    assert(s@.take(s@.len() as int) =~= s@);
    out
}

/// The anchor identifier of a heading: its text lowercased, spaces turned into hyphens,
/// and the characters `! ? : ; , . " ' ( ) [ ] { }` removed.
pub fn slugify(text: &str) -> (r: String)
    ensures
        r@ == heading_id(text@),
{
    let lowered = to_lower(text);
    let cs = chars_of(lowered.as_str());
    let slug = slug_of_lowered(&cs);
    string_of(slug.as_slice())
}

/// Identical heading text always gives the identical identifier.
pub proof fn lemma_heading_id_deterministic(a: Seq<char>, b: Seq<char>)
    requires
        a == b,
    ensures
        heading_id(a) == heading_id(b),
{
}

/// A closing heading tag `</hN>` starts at `p`.
pub open spec fn closing_tag_at(s: Seq<char>, p: int) -> bool {
    0 <= p && p + 5 <= s.len() && s[p] == '<' && s[p + 1] == '/' && s[p + 2] == 'h' && decimal_digit(
        s[p + 3],
    ) && s[p + 4] == '>'
}

/// The first index at or after `j` where a closing heading tag starts, or the length
/// of `s`.
pub open spec fn closing_from(s: Seq<char>, j: int) -> int
    decreases s.len() - j,
{
    if j < 0 || j >= s.len() {
        s.len() as int
    } else if closing_tag_at(s, j) {
        j
    } else {
        closing_from(s, j + 1)
    }
}

proof fn lemma_closing_from_found(s: Seq<char>, j: int)
    requires
        0 <= j,
    ensures
        closing_from(s, j) < s.len() ==> closing_tag_at(s, closing_from(s, j)),
        j <= s.len() ==> j <= closing_from(s, j) <= s.len(),
    decreases s.len() - j,
{
    if j < s.len() && !closing_tag_at(s, j) {
        lemma_closing_from_found(s, j + 1);
    }
}

/// Where a heading element `<hN>...</hM>` with non-empty content starts at `i`: the
/// index of the first closing heading tag after its opening tag.
pub open spec fn heading_at(s: Seq<char>, i: int) -> Option<int> {
    let p = closing_from(s, i + 4);
    if 0 <= i && i + 4 <= s.len() && s[i] == '<' && s[i + 1] == 'h' && decimal_digit(s[i + 2]) && s[i + 3]
        == '>' && i + 4 < p && p + 5 <= s.len() {
        Some(p)
    } else {
        None
    }
}

/// The text of `t[i..]` outside markup tags, where `in_tag` says whether `t[i]` lies
/// inside a tag.
pub open spec fn text_from(t: Seq<char>, i: int, in_tag: bool) -> Seq<char>
    decreases t.len() - i,
{
    if i < 0 || i >= t.len() {
        seq![]
    } else if in_tag {
        text_from(t, i + 1, t[i] != '>')
    } else if t[i] == '<' {
        text_from(t, i + 1, true)
    } else {
        seq![t[i]] + text_from(t, i + 1, false)
    }
}

/// The text content of markup: everything outside `<...>` tags.
pub open spec fn text_content(t: Seq<char>) -> Seq<char> {
    text_from(t, 0, false)
}

/// The text content of markup.
fn strip_tags(t: &Vec<char>) -> (r: Vec<char>)
    ensures
        r@ == text_content(t@),
{
    let mut out: Vec<char> = Vec::new();
    let mut in_tag = false;
    let mut i: usize = 0;
    while i < t.len()
        invariant
            i <= t@.len(),
            out@ + text_from(t@, i as int, in_tag) == text_content(t@),
        decreases t@.len() - i,
    {
        let c = t[i];
        let ghost prev = out@;
        if in_tag {
            in_tag = c != '>';
        } else if c == '<' {
            in_tag = true;
        } else {
            out.push(c);
            assert(prev.push(c) + text_from(t@, i + 1, false) =~= prev + (seq![c] + text_from(t@, i + 1, false)));
        }
        i = i + 1;
    }
    assert(out@ + text_from(t@, i as int, in_tag) =~= out@);
    out
}

/// The heading element from `i` to the end of its closing tag at `p`, with an `id`
/// attribute holding the identifier of its text content inserted after `<hN`: everything else,
/// the closing tag included, stays as it came.
pub open spec fn heading_with_id(s: Seq<char>, i: int, p: int) -> Seq<char> {
    s.subrange(i, i + 3) + seq![' ', 'i', 'd', '=', '"'] + heading_id(text_content(s.subrange(i + 4, p)))
        + seq!['"']
        + s.subrange(i + 3, p + 5)
}

/// The markup `s[i..]` with every heading element given its identifier, scanning from
/// the left and resuming after each heading replaced.
pub open spec fn ids_from(s: Seq<char>, i: int) -> Seq<char>
    decreases s.len() - i,
{
    if i < 0 || i >= s.len() {
        seq![]
    } else {
        match heading_at(s, i) {
            Some(p) => heading_with_id(s, i, p) + ids_from(s, p + 5),
            None => seq![s[i]] + ids_from(s, i + 1),
        }
    }
}

/// The markup with every heading element given its identifier.
pub open spec fn with_heading_ids(s: Seq<char>) -> Seq<char> {
    ids_from(s, 0)
}

/// What pulldown-cmark renders from a text with strikethrough, tables, footnotes and
/// task lists enabled.
pub uninterp spec fn cmark_html_of(md: Seq<char>) -> Seq<char>;

/// Relies on `pulldown_cmark::Parser::new_ext` and `pulldown_cmark::html::push_html`: the
/// markup depends on the text alone.
#[verifier::external_body]
fn render_cmark(md: &str) -> (r: String)
    ensures
        r@ == cmark_html_of(md@),
{
    let mut options = pulldown_cmark::Options::empty();
    options.insert(pulldown_cmark::Options::ENABLE_STRIKETHROUGH);
    options.insert(pulldown_cmark::Options::ENABLE_TABLES);
    options.insert(pulldown_cmark::Options::ENABLE_FOOTNOTES);
    options.insert(pulldown_cmark::Options::ENABLE_TASKLISTS);
    let parser = pulldown_cmark::Parser::new_ext(md, options);
    let mut html = String::new();
    pulldown_cmark::html::push_html(&mut html, parser);
    html
}

fn push_all(out: &mut Vec<char>, v: &Vec<char>)
    ensures
        final(out)@ == old(out)@ + v@,
{
    let mut i: usize = 0;
    while i < v.len()
        invariant
            i <= v@.len(),
            out@ == old(out)@ + v@.take(i as int),
        decreases v@.len() - i,
    {
        out.push(v[i]);
        i = i + 1;
        assert(out@ =~= old(out)@ + v@.take(i as int));
    }
    assert(v@.take(v@.len() as int) =~= v@);
}

fn closing_index(s: &Vec<char>, j: usize) -> (r: usize)
    requires
        j <= s@.len(),
    ensures
        r == closing_from(s@, j as int),
        j <= r <= s@.len(),
{
    let n = s.len();
    let mut k = j;
    while k < n
        invariant
            j <= k <= n == s@.len(),
            closing_from(s@, j as int) == closing_from(s@, k as int),
        decreases n - k,
    {
        if n - k >= 5 && s[k] == '<' && s[k + 1] == '/' && s[k + 2] == 'h' && is_decimal_digit(s[k + 3])
            && s[k + 4] == '>' {
            return k;
        }
        k = k + 1;
    }
    k
}

/// Gives each heading element `<hN>...</hM>` of the markup an `id` attribute derived
/// from its text content, leaving everything else as it is.
pub fn add_heading_ids(html: &str) -> (r: String)
    ensures
        r@ == with_heading_ids(html@),
{
    let s = chars_of(html);
    let n = s.len();
    let mut out: Vec<char> = Vec::new();
    let mut i: usize = 0;
    while i < n
        invariant
            i <= n == s@.len(),
            out@ + ids_from(s@, i as int) == with_heading_ids(s@),
        decreases n - i,
    {
        let ghost prev = out@;
        let mut matched = false;
        if n - i >= 4 && s[i] == '<' && s[i + 1] == 'h' && is_decimal_digit(s[i + 2]) && s[i + 3] == '>' {
            let p = closing_index(&s, i + 4);
            proof {
                lemma_closing_from_found(s@, i + 4);
            }
            if p > i + 4 && p < n {
                let level = s[i + 2];
                let text = crate::text::copy_range(&s, i + 4, p);
                let content = strip_tags(&text);
                let text_str = string_of(content.as_slice());
                let lowered = to_lower(text_str.as_str());
                let low_chars = chars_of(lowered.as_str());
                let id = slug_of_lowered(&low_chars);
                let mut head: Vec<char> = vec!['<', 'h', level, ' ', 'i', 'd', '=', '"'];
                push_all(&mut head, &id);
                head.push('"');
                head.push('>');
                push_all(&mut head, &text);
                head.push('<');
                head.push('/');
                head.push('h');
                head.push(s[p + 3]);
                head.push('>');
                proof {
                    let t = s@.subrange(i + 4, p as int);
                    assert(s@.subrange(i as int, i + 3) =~= seq!['<', 'h', level]);
                    assert(s@.subrange(i + 3, p + 5) =~= seq!['>'] + t + seq!['<', '/', 'h', s@[p + 3], '>']);
                    assert(head@ =~= seq!['<', 'h', level] + seq![' ', 'i', 'd', '=', '"'] + heading_id(text_content(t)) + seq!['"'] + (
                    seq!['>'] + t + seq!['<', '/', 'h', s@[p + 3], '>']));
                }
                assert(head@ =~= heading_with_id(s@, i as int, p as int));
                push_all(&mut out, &head);
                proof {
                    let rest = ids_from(s@, p + 5);
                    assert(heading_at(s@, i as int) == Some(p as int));
                    assert(prev + head@ + rest =~= prev + (head@ + rest));
                }
                i = p + 5;
                matched = true;
            }
        }
        if !matched {
            proof {
                assert(heading_at(s@, i as int) is None);
                let rest = ids_from(s@, i + 1);
                assert(prev.push(s@[i as int]) + rest =~= prev + (seq![s@[i as int]] + rest));
            }
            out.push(s[i]);
            i = i + 1;
        }
    }
    assert(out@ + ids_from(s@, n as int) =~= out@);
    string_of(out.as_slice())
}

/// Renders a body to markup and gives each heading its anchor identifier.
pub fn markdown_to_html(markdown: &str) -> (r: String)
    ensures
        r@ == with_heading_ids(cmark_html_of(markdown@)),
{
    let html = render_cmark(markdown);
    add_heading_ids(html.as_str())
}

} // verus!
