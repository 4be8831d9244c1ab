use vstd::prelude::*;
use crate::text::{chars_of, copy_range, is_ws, lines_from, lines_of, lower_of, split_lines, string_of, strip_cr, to_lower, trim, trim_chars, trim_end, trim_start, ws_char};

verus! {

/// The line starts a second-level heading: `## ` at its start.
pub open spec fn is_h2(l: Seq<char>) -> bool {
    l.len() >= 3 && l[0] == '#' && l[1] == '#' && l[2] == ' '
}

/// The lines joined with line feeds between them.
pub open spec fn join_lines(ls: Seq<Seq<char>>) -> Seq<char>
    decreases ls.len(),
{
    if ls.len() == 0 {
        seq![]
    } else if ls.len() == 1 {
        ls[0]
    } else {
        join_lines(ls.drop_last()) + seq!['\n'] + ls.last()
    }
}

/// The section that ends here, if one is open: its key and its trimmed content.
pub open spec fn close_section(key: Option<Seq<char>>, content: Seq<Seq<char>>) -> Seq<(Seq<char>, Seq<char>)> {
    match key {
        Some(k) => seq![(k, trim(join_lines(content)))],
        None => seq![],
    }
}

/// The sections found in `ls[j..]`, where `key` names the open section, if any, and
/// `content` holds the lines gathered for it so far.
pub open spec fn sections_from(
    ls: Seq<Seq<char>>,
    j: int,
    key: Option<Seq<char>>,
    content: Seq<Seq<char>>,
) -> Seq<(Seq<char>, Seq<char>)>
    decreases ls.len() - j,
{
    if j >= ls.len() {
        close_section(key, content)
    } else if is_h2(ls[j]) {
        close_section(key, content) + sections_from(ls, j + 1, Some(lower_of(ls[j].skip(3))), seq![])
    } else if key is Some {
        sections_from(ls, j + 1, key, content.push(ls[j]))
    } else {
        sections_from(ls, j + 1, key, content)
    }
}

/// Every section of a body in order, as (lowercased heading, trimmed content); text
/// before the first second-level heading belongs to none.
pub open spec fn sections_of(body: Seq<char>) -> Seq<(Seq<char>, Seq<char>)> {
    sections_from(lines_of(body), 0, None, seq![])
}

/// The content of the last section with the given key: a later section overrides an
/// earlier one of the same key.
pub open spec fn section_lookup(secs: Seq<(Seq<char>, Seq<char>)>, key: Seq<char>) -> Option<Seq<char>>
    decreases secs.len(),
{
    if secs.len() == 0 {
        None
    } else if secs.last().0 == key {
        Some(secs.last().1)
    } else {
        section_lookup(secs.drop_last(), key)
    }
}

pub open spec fn pairs_view(v: Seq<(String, String)>) -> Seq<(Seq<char>, Seq<char>)> {
    v.map_values(|p: (String, String)| (p.0@, p.1@))
}

pub open spec fn key_view(k: Option<String>) -> Option<Seq<char>> {
    match k {
        Some(s) => Some(s@),
        None => None,
    }
}

/// Splits a body into its sections, in order of appearance.
pub fn parse_markdown_sections(markdown: &str) -> (r: Vec<(String, String)>)
    ensures
        pairs_view(r@) == sections_of(markdown@),
{
    let text = chars_of(markdown);
    let lines = split_lines(&text);
    let ghost ls = lines_of(markdown@);
    let n = lines.len();
    let mut out: Vec<(String, String)> = Vec::new();
    let mut key: Option<String> = None;
    let mut buf: Vec<char> = Vec::new();
    let mut count: usize = 0;
    let ghost mut content: Seq<Seq<char>> = seq![];
    let mut j: usize = 0;
    while j < n
        invariant
            n == lines@.len() == ls.len(),
            lines@.map_values(|l: Vec<char>| l@) == ls,
            j <= n,
            buf@ == join_lines(content),
            count == content.len(),
            count <= j,
            pairs_view(out@) + sections_from(ls, j as int, key_view(key), content)
                == sections_of(markdown@),
        decreases n - j,
    {
        let line = &lines[j];
        assert(line@ == ls[j as int]);
        let ghost prev = pairs_view(out@);
        if line.len() >= 3 && line[0] == '#' && line[1] == '#' && line[2] == ' ' {
            let ghost closed = close_section(key_view(key), content);
            match key {
                Some(k) => {
                    let c = trim_chars(&buf);
                    out.push((k, string_of(c.as_slice())));
                },
                None => {},
            }
            assert(pairs_view(out@) =~= prev + closed);
            let rest = copy_range(line, 3, line.len());
            let heading = string_of(rest.as_slice());
            let lowered = to_lower(heading.as_str());
            assert(rest@ =~= ls[j as int].skip(3));
            key = Some(lowered);
            buf = Vec::new();
            count = 0;
            proof {
                content = seq![];
                let tail = sections_from(ls, j + 1, key_view(key), content);
                assert(prev + closed + tail =~= prev + (closed + tail));
            }
        } else if key.is_some() {
            proof {
                assert(content.push(line@).drop_last() =~= content);
            }
            if count > 0 {
                buf.push('\n');
            }
            let mut i: usize = 0;
            let ghost base = buf@;
            while i < line.len()
                invariant
                    i <= line@.len(),
                    buf@ == base + line@.subrange(0, i as int),
                decreases line@.len() - i,
            {
                buf.push(line[i]);
                i = i + 1;
                assert(buf@ =~= base + line@.subrange(0, i as int));
            }
            proof {
                assert(line@.subrange(0, line@.len() as int) =~= line@);
                if count == 0 {
                    assert(buf@ =~= line@);
                }
                content = content.push(line@);
            }
            count = count + 1;
        }
        j = j + 1;
    }
    let ghost prev = pairs_view(out@);
    match key {
        Some(k) => {
            let c = trim_chars(&buf);
            out.push((k, string_of(c.as_slice())));
        },
        None => {},
    }
    assert(pairs_view(out@) =~= prev + sections_from(ls, n as int, key_view(key), content));
    out
}

/// Looks a section up by key; where several share it, the last one counts.
pub fn get_section(secs: &Vec<(String, String)>, key: &String) -> (r: Option<String>)
    ensures
        key_view(r) == section_lookup(pairs_view(secs@), key@),
{
    let ghost pv = pairs_view(secs@);
    let mut i: usize = secs.len();
    assert(pv.subrange(0, i as int) =~= pv);
    while i > 0
        invariant
            i <= secs@.len(),
            pv == pairs_view(secs@),
            section_lookup(pv, key@) == section_lookup(pv.subrange(0, i as int), key@),
        decreases i,
    {
        assert(pv.subrange(0, i as int).drop_last() =~= pv.subrange(0, i - 1));
        if secs[i - 1].0 == *key {
            return Some(secs[i - 1].1.clone());
        }
        i = i - 1;
    }
    None
}

/// `## Table of Contents`, the heading that opens the table of contents.
pub open spec fn toc_heading() -> Seq<char> {
    seq!['#', '#', ' ', 'T', 'a', 'b', 'l', 'e', ' ', 'o', 'f', ' ', 'C', 'o', 'n', 't', 'e', 'n', 't', 's']
}

/// A line feed followed by a second-level heading marker.
pub open spec fn h2_break() -> Seq<char> {
    seq!['\n', '#', '#', ' ']
}

/// `pat` occurs in `s` at `i`.
pub open spec fn occurs_at(s: Seq<char>, pat: Seq<char>, i: int) -> bool {
    0 <= i && i + pat.len() <= s.len() && s.subrange(i, i + pat.len()) == pat
}

/// The first index at or after `i` where `pat` occurs in `s`.
pub open spec fn find_from(s: Seq<char>, pat: Seq<char>, i: int) -> Option<int>
    decreases s.len() + 1 - i,
{
    if i < 0 || i + pat.len() > s.len() {
        None
    } else if occurs_at(s, pat, i) {
        Some(i)
    } else {
        find_from(s, pat, i + 1)
    }
}

/// The character is a decimal digit in the sense of Unicode general category `Nd`.
pub uninterp spec fn decimal_digit(c: char) -> bool;

/// Relies on the `regex` crate's `\d` class: Unicode decimal digits (general category
/// `Nd`), of which `0` to `9` are the only ASCII ones.
#[verifier::external_body]
pub(crate) fn is_decimal_digit(c: char) -> (r: bool)
    ensures
        r == decimal_digit(c),
        c <= '\u{7f}' ==> (r <==> '0' <= c <= '9'),
{
    let mut buf = [0u8; 4];
    match regex::Regex::new(r"^\d$") {
        Ok(re) => re.is_match(c.encode_utf8(&mut buf)),
        Err(_) => false,
    }
}

/// The end of the run of decimal digits that starts at `i`.
pub open spec fn digits_end(l: Seq<char>, i: int) -> int
    decreases l.len() - i,
{
    if 0 <= i < l.len() && decimal_digit(l[i]) {
        digits_end(l, i + 1)
    } else {
        i
    }
}

/// The end of the run of whitespace that starts at `i`.
pub open spec fn ws_end(l: Seq<char>, i: int) -> int
    decreases l.len() - i,
{
    if 0 <= i < l.len() && ws_char(l[i]) {
        ws_end(l, i + 1)
    } else {
        i
    }
}

pub open spec fn double_star() -> Seq<char> {
    seq!['*', '*']
}

/// The text of a numbered bold item `<decimal digits>.<whitespace>**<text>**` at the start of a
/// line: everything between the opening `**` and the first `**` after it.
pub open spec fn toc_item(l: Seq<char>) -> Option<Seq<char>> {
    let d = digits_end(l, 0);
    let w = ws_end(l, d + 1);
    if d == 0 || d >= l.len() || l[d] != '.' || w == d + 1 || !occurs_at(l, double_star(), w) {
        None
    } else {
        match find_from(l, double_star(), w + 2) {
            Some(q) => Some(l.subrange(w + 2, q)),
            None => None,
        }
    }
}

/// The items of the lines that are numbered bold items, in order.
pub open spec fn toc_items(ls: Seq<Seq<char>>) -> Seq<Seq<char>>
    decreases ls.len(),
{
    if ls.len() == 0 {
        seq![]
    } else {
        toc_items(ls.drop_last()) + match toc_item(ls.last()) {
            Some(t) => seq![t],
            None => seq![],
        }
    }
}

/// The table-of-contents window: from the first `## Table of Contents` to the next
/// line that starts a second-level heading, or to the end of the text.
pub open spec fn toc_window(s: Seq<char>) -> Option<Seq<char>> {
    match find_from(s, toc_heading(), 0) {
        Some(start) => {
            let after = s.skip(start);
            match find_from(after, h2_break(), 0) {
                Some(end) => Some(after.take(end)),
                None => Some(after),
            }
        },
        None => None,
    }
}

/// The table of contents of a body: the numbered bold items of its window, in order,
/// or nothing where the body has no `## Table of Contents`.
pub open spec fn toc_of(s: Seq<char>) -> Seq<Seq<char>> {
    match toc_window(s) {
        Some(w) => toc_items(lines_of(w)),
        None => seq![],
    }
}

/// The first index at or after `from` where `pat` occurs in `s`.
pub fn find_seq(s: &Vec<char>, pat: &Vec<char>, from: usize) -> (r: Option<usize>)
    requires
        from <= s@.len(),
    ensures
        match r {
            Some(i) => find_from(s@, pat@, from as int) == Some(i as int),
            None => find_from(s@, pat@, from as int) is None,
        },
{
    let n = s.len();
    let m = pat.len();
    let mut i: usize = from;
    while i <= n && n - i >= m
        invariant
            from <= i,
            n == s@.len(),
            m == pat@.len(),
            find_from(s@, pat@, from as int) == find_from(s@, pat@, i as int),
        decreases n - i,
    {
        let mut k: usize = 0;
        let mut same = true;
        while k < m
            invariant
                k <= m,
                i + m <= n,
                n == s@.len(),
                m == pat@.len(),
                same == (forall|t: int| 0 <= t < k ==> s@[i + t] == pat@[t]),
            decreases m - k,
        {
            if s[i + k] != pat[k] {
                same = false;
            }
            k = k + 1;
        }
        assert(same == (s@.subrange(i as int, i + m) =~= pat@));
        if same {
            return Some(i);
        }
        i = i + 1;
    }
    None
}

fn digit_run_end(l: &Vec<char>, i: usize) -> (r: usize)
    requires
        i <= l@.len(),
    ensures
        r == digits_end(l@, i as int),
        i <= r <= l@.len(),
{
    let mut k = i;
    while k < l.len() && is_decimal_digit(l[k])
        invariant
            i <= k <= l@.len(),
            digits_end(l@, i as int) == digits_end(l@, k as int),
        decreases l@.len() - k,
    {
        k = k + 1;
    }
    k
}

pub fn ws_run_end(l: &Vec<char>, i: usize) -> (r: usize)
    requires
        i <= l@.len(),
    ensures
        r == ws_end(l@, i as int),
        i <= r <= l@.len(),
{
    let mut k = i;
    while k < l.len() && is_ws(l[k])
        invariant
            i <= k <= l@.len(),
            ws_end(l@, i as int) == ws_end(l@, k as int),
        decreases l@.len() - k,
    {
        k = k + 1;
    }
    k
}

/// The item of a numbered bold line, if the line is one.
pub fn parse_toc_item(l: &Vec<char>) -> (r: Option<Vec<char>>)
    ensures
        match r {
            Some(t) => toc_item(l@) == Some(t@),
            None => toc_item(l@) is None,
        },
{
    let d = digit_run_end(l, 0);
    if d == 0 || d >= l.len() || l[d] != '.' {
        return None;
    }
    let w = ws_run_end(l, d + 1);
    if w == d + 1 || l.len() - w < 2 || l[w] != '*' || l[w + 1] != '*' {
        proof {
            if occurs_at(l@, double_star(), w as int) {
                assert(l@.subrange(w as int, w + 2)[0] == l@[w as int]);
                assert(l@.subrange(w as int, w + 2)[1] == l@[w + 1]);
            }
        }
        return None;
    }
    assert(l@.subrange(w as int, w + 2) =~= double_star());
    let stars = vec!['*', '*'];
    assert(stars@ =~= double_star());
    match find_seq(l, &stars, w + 2) {
        Some(q) => {
            proof {
                lemma_find_from_bounds(l@, double_star(), w + 2);
            }
            Some(copy_range(l, w + 2, q))
        },
        None => None,
    }
}

proof fn lemma_find_from_bounds(s: Seq<char>, pat: Seq<char>, i: int)
    ensures
        match find_from(s, pat, i) {
            Some(q) => i <= q && q + pat.len() <= s.len(),
            None => true,
        },
    decreases s.len() + 1 - i,
{
    if !(i < 0 || i + pat.len() > s.len()) && !occurs_at(s, pat, i) {
        lemma_find_from_bounds(s, pat, i + 1);
    }
}

/// Extracts the table of contents of a body.
pub fn extract_toc(markdown: &str) -> (r: Vec<String>)
    ensures
        r@.map_values(|t: String| t@) == toc_of(markdown@),
{
    let s = chars_of(markdown);
    let heading = vec!['#', '#', ' ', 'T', 'a', 'b', 'l', 'e', ' ', 'o', 'f', ' ', 'C', 'o', 'n', 't', 'e', 'n', 't', 's'];
    assert(heading@ =~= toc_heading());
    let start = match find_seq(&s, &heading, 0) {
        Some(i) => i,
        None => {
            return Vec::new();
        },
    };
    proof {
        lemma_find_from_bounds(s@, toc_heading(), 0);
    }
    let after = copy_range(&s, start, s.len());
    assert(after@ =~= s@.skip(start as int));
    let brk = vec!['\n', '#', '#', ' '];
    assert(brk@ =~= h2_break());
    let window = match find_seq(&after, &brk, 0) {
        Some(e) => {
            proof {
                lemma_find_from_bounds(after@, h2_break(), 0);
            }
            let w = copy_range(&after, 0, e);
            assert(w@ =~= after@.take(e as int));
            w
        },
        None => after,
    };
    let lines = split_lines(&window);
    let ghost ls = lines@.map_values(|l: Vec<char>| l@);
    let mut out: Vec<String> = Vec::new();
    let mut j: usize = 0;
    while j < lines.len()
        invariant
            j <= lines@.len(),
            ls == lines@.map_values(|l: Vec<char>| l@),
            out@.map_values(|t: String| t@) == toc_items(ls.take(j as int)),
        decreases lines@.len() - j,
    {
        assert(ls.take(j + 1).drop_last() =~= ls.take(j as int));
        match parse_toc_item(&lines[j]) {
            Some(t) => {
                out.push(string_of(t.as_slice()));
            },
            None => {},
        }
        assert(out@.map_values(|t: String| t@) =~= toc_items(ls.take(j + 1)));
        j = j + 1;
    }
    assert(ls.take(lines@.len() as int) =~= ls);
    out
}

/// No carriage return in `s` stands right before a line feed.
pub open spec fn no_crlf(s: Seq<char>) -> bool {
    forall|k: int| 0 <= k < s.len() - 1 ==> !(s[k] == '\r' && #[trigger] s[k + 1] == '\n')
}

proof fn lemma_lines_no_nl(s: Seq<char>, i: int, j: int, cur: Seq<char>)
    requires
        0 <= i <= j <= s.len(),
        forall|k: int| i <= k < j ==> s[k] != '\n',
    ensures
        lines_from(s, i, cur) == lines_from(s, j, cur + s.subrange(i, j)),
    decreases j - i,
{
    if i < j {
        lemma_lines_no_nl(s, i + 1, j, cur.push(s[i]));
        assert(cur.push(s[i]) + s.subrange(i + 1, j) =~= cur + s.subrange(i, j));
    } else {
        assert(cur + s.subrange(i, j) =~= cur);
    }
}

proof fn lemma_lines_shift(p: Seq<char>, c: Seq<char>, i: int, cur: Seq<char>)
    requires
        0 <= i <= c.len(),
    ensures
        lines_from(p + c, p.len() + i, cur) == lines_from(c, i, cur),
    decreases c.len() - i,
{
    if i < c.len() {
        assert((p + c)[p.len() + i] == c[i]);
        lemma_lines_shift(p, c, i + 1, cur.push(c[i]));
        lemma_lines_shift(p, c, i + 1, seq![]);
    }
}

proof fn lemma_lines_nonempty(s: Seq<char>, i: int, cur: Seq<char>)
    requires
        0 <= i,
        i < s.len() || cur.len() > 0,
    ensures
        lines_from(s, i, cur).len() > 0,
    decreases s.len() - i,
{
    if i < s.len() && s[i] != '\n' {
        lemma_lines_nonempty(s, i + 1, cur.push(s[i]));
    }
}

proof fn lemma_join_cons(x: Seq<char>, r: Seq<Seq<char>>)
    requires
        r.len() > 0,
    ensures
        join_lines(seq![x] + r) == x + seq!['\n'] + join_lines(r),
    decreases r.len(),
{
    let xr = seq![x] + r;
    assert(xr.drop_last() =~= seq![x] + r.drop_last());
    assert(xr.last() == r.last());
    assert(join_lines(xr) == join_lines(xr.drop_last()) + seq!['\n'] + xr.last());
    if r.len() == 1 {
        assert(seq![x] + r.drop_last() =~= seq![x]);
        assert(join_lines(seq![x]) == x);
        assert(join_lines(r) == r[0]);
        assert(r[0] == r.last());
    } else {
        lemma_join_cons(x, r.drop_last());
        assert(join_lines(r) == join_lines(r.drop_last()) + seq!['\n'] + r.last());
        assert(x + seq!['\n'] + join_lines(r.drop_last()) + seq!['\n'] + r.last() =~= x + seq!['\n'] + (
        join_lines(r.drop_last()) + seq!['\n'] + r.last()));
    }
}

proof fn lemma_join_lines_from(c: Seq<char>, i: int, cur: Seq<char>)
    requires
        0 <= i <= c.len(),
        no_crlf(c),
        c.len() > 0 ==> c.last() != '\n',
        forall|k: int| 0 <= k < cur.len() ==> cur[k] != '\n',
        cur.len() > 0 && cur.last() == '\r' && i < c.len() ==> c[i] != '\n',
    ensures
        join_lines(lines_from(c, i, cur)) == cur + c.subrange(i, c.len() as int),
    decreases c.len() - i,
{
    if i >= c.len() {
        assert(cur + c.subrange(i, c.len() as int) =~= cur);
    } else if c[i] == '\n' {
        assert(strip_cr(cur) == cur);
        let rest = lines_from(c, i + 1, seq![]);
        assert(i + 1 < c.len());
        lemma_lines_nonempty(c, i + 1, seq![]);
        lemma_join_lines_from(c, i + 1, seq![]);
        lemma_join_cons(cur, rest);
        assert(cur + seq!['\n'] + (seq![] + c.subrange(i + 1, c.len() as int)) =~= cur + c.subrange(
            i,
            c.len() as int,
        ));
    } else {
        let next = cur.push(c[i]);
        if c[i] == '\r' && i + 1 < c.len() {
            assert(!(c[i] == '\r' && c[i + 1] == '\n'));
        }
        lemma_join_lines_from(c, i + 1, next);
        assert(next + c.subrange(i + 1, c.len() as int) =~= cur + c.subrange(i, c.len() as int));
    }
}

proof fn lemma_sections_accumulate(ls: Seq<Seq<char>>, j: int, key: Seq<char>, content: Seq<Seq<char>>)
    requires
        0 <= j <= ls.len(),
        forall|m: int| j <= m < ls.len() ==> !is_h2(#[trigger] ls[m]),
    ensures
        sections_from(ls, j, Some(key), content) == seq![
            (key, trim(join_lines(content + ls.subrange(j, ls.len() as int)))),
        ],
    decreases ls.len() - j,
{
    if j < ls.len() {
        lemma_sections_accumulate(ls, j + 1, key, content.push(ls[j]));
        assert(content.push(ls[j]) + ls.subrange(j + 1, ls.len() as int) =~= content + ls.subrange(
            j,
            ls.len() as int,
        ));
    } else {
        assert(content + ls.subrange(j, ls.len() as int) =~= content);
    }
}

proof fn lemma_trim_start_suffix(s: Seq<char>)
    ensures
        trim_start(s).len() <= s.len(),
        trim_start(s) == s.skip(s.len() - trim_start(s).len()),
    decreases s.len(),
{
    if s.len() > 0 && ws_char(s[0]) {
        lemma_trim_start_suffix(s.drop_first());
        assert(s.drop_first().skip(s.len() - 1 - trim_start(s).len()) =~= s.skip(s.len() - trim_start(s).len()));
    } else {
        assert(s.skip(0) =~= s);
    }
}

proof fn lemma_trim_end_shorter(s: Seq<char>)
    ensures
        trim_end(s).len() <= s.len(),
        s.len() > 0 && ws_char(s.last()) ==> trim_end(s).len() < s.len(),
    decreases s.len(),
{
    if s.len() > 0 && ws_char(s.last()) {
        lemma_trim_end_shorter(s.drop_last());
    }
}

/// Trimmed text does not end with a line feed.
proof fn lemma_trimmed_no_trailing_nl(c: Seq<char>)
    requires
        trim(c) == c,
    ensures
        c.len() > 0 ==> c.last() != '\n',
{
    if c.len() > 0 && c.last() == '\n' {
        let t = trim_start(c);
        lemma_trim_start_suffix(c);
        lemma_trim_end_shorter(t);
        if t.len() > 0 {
            assert(t.last() == c.last());
        }
    }
}

/// A body made of a second-level heading line and, after it, content that is trimmed,
/// starts no line with `## `, and has no carriage return before a line feed, holds one
/// section: the heading's key with that content, unchanged.
pub proof fn lemma_single_section_round_trip(h: Seq<char>, c: Seq<char>)
    requires
        is_h2(h),
        forall|k: int| 0 <= k < h.len() ==> h[k] != '\n',
        h.last() != '\r',
        trim(c) == c,
        no_crlf(c),
        forall|m: int| 0 <= m < lines_of(c).len() ==> !is_h2(#[trigger] lines_of(c)[m]),
    ensures
        sections_of(h + seq!['\n'] + c) == seq![(lower_of(h.skip(3)), c)],
{
    lemma_trimmed_no_trailing_nl(c);
    let p = h + seq!['\n'];
    let s = p + c;
    assert(h + seq!['\n'] + c == s);
    lemma_lines_no_nl(s, 0, h.len() as int, seq![]);
    assert(seq![] + s.subrange(0, h.len() as int) =~= h);
    assert(s[h.len() as int] == '\n');
    assert(strip_cr(h) == h);
    lemma_lines_shift(p, c, 0, seq![]);
    let lc = lines_of(c);
    let ls = lines_of(s);
    assert(ls == seq![h] + lc);
    assert(ls[0] == h);
    let key = lower_of(h.skip(3));
    assert(sections_from(ls, 0, None, seq![]) == close_section(None, seq![]) + sections_from(
        ls,
        1,
        Some(key),
        seq![],
    ));
    assert forall|m: int| 1 <= m < ls.len() implies !is_h2(#[trigger] ls[m]) by {
        assert(ls[m] == lc[m - 1]);
    }
    lemma_sections_accumulate(ls, 1, key, seq![]);
    assert(seq![] + ls.subrange(1, ls.len() as int) =~= lc);
    lemma_join_lines_from(c, 0, seq![]);
    assert(seq![] + c.subrange(0, c.len() as int) =~= c);
    assert(close_section(None, seq![]) =~= Seq::<(Seq<char>, Seq<char>)>::empty());
    assert(sections_of(s) =~= seq![(key, c)]);
}

} // verus!
