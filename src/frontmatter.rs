use vstd::prelude::*;
use crate::sections::{occurs_at, ws_end, ws_run_end};
use crate::text::{chars_of, copy_range, string_of};

verus! {

/// A line feed followed by three hyphens: the start of the closing delimiter.
pub open spec fn close_marker() -> Seq<char> {
    seq!['\n', '-', '-', '-']
}

/// The last line feed in `s[a..b)`.
pub open spec fn last_nl(s: Seq<char>, a: int, b: int) -> Option<int>
    decreases b - a,
{
    if b <= a {
        None
    } else if s[b - 1] == '\n' {
        Some(b - 1)
    } else {
        last_nl(s, a, b - 1)
    }
}

/// Where a closing delimiter starts at `k`: the line feed that ends it, the last one in
/// the whitespace that follows its three hyphens.
pub open spec fn closing_at(s: Seq<char>, k: int) -> Option<int> {
    if occurs_at(s, close_marker(), k) {
        last_nl(s, k + 4, ws_end(s, k + 4))
    } else {
        None
    }
}

/// The first closing delimiter at or after `c`: where it starts and the line feed
/// that ends it.
pub open spec fn first_closing(s: Seq<char>, c: int) -> Option<(int, int)>
    decreases s.len() + 1 - c,
{
    if c < 0 || c + 4 > s.len() {
        None
    } else {
        match closing_at(s, c) {
            Some(m) => Some((c, m)),
            None => first_closing(s, c + 1),
        }
    }
}

/// The last line feed at or below `j`, and at or after index 3, after which a closing
/// delimiter follows: the end of the opening delimiter.
pub open spec fn pick_open(s: Seq<char>, j: int) -> Option<int>
    decreases j,
{
    if j < 3 {
        None
    } else if 0 <= j < s.len() && s[j] == '\n' && first_closing(s, j + 1) is Some {
        Some(j)
    } else {
        pick_open(s, j - 1)
    }
}

/// A document that opens with a metadata block: a line `---` (trailing whitespace
/// allowed), the block, a line `---` (trailing whitespace allowed), and the body. The
/// opening line takes as much whitespace as it can, the block is the shortest that
/// works, and the closing line again takes as much whitespace as it can. Gives the
/// block and the body.
pub open spec fn split_of(s: Seq<char>) -> Option<(Seq<char>, Seq<char>)> {
    if s.len() >= 3 && s[0] == '-' && s[1] == '-' && s[2] == '-' {
        match pick_open(s, ws_end(s, 3) - 1) {
            Some(j) => match first_closing(s, j + 1) {
                Some(km) => Some((s.subrange(j + 1, km.0), s.subrange(km.1 + 1, s.len() as int))),
                None => None,
            },
            None => None,
        }
    } else {
        None
    }
}

proof fn lemma_last_nl_bounds(s: Seq<char>, a: int, b: int)
    ensures
        match last_nl(s, a, b) {
            Some(m) => a <= m < b && s[m] == '\n',
            None => true,
        },
    decreases b - a,
{
    if b > a && s[b - 1] != '\n' {
        lemma_last_nl_bounds(s, a, b - 1);
    }
}

proof fn lemma_first_closing_bounds(s: Seq<char>, c: int)
    ensures
        match first_closing(s, c) {
            Some(km) => c <= km.0 && km.0 + 4 <= km.1 + 1 <= s.len(),
            None => true,
        },
    decreases s.len() + 1 - c,
{
    if !(c < 0 || c + 4 > s.len()) {
        if occurs_at(s, close_marker(), c) {
            lemma_last_nl_bounds(s, c + 4, ws_end(s, c + 4));
            lemma_ws_end_bounds(s, c + 4);
        }
        if closing_at(s, c) is None {
            lemma_first_closing_bounds(s, c + 1);
        }
    }
}

proof fn lemma_ws_end_bounds(s: Seq<char>, i: int)
    requires
        0 <= i <= s.len(),
    ensures
        i <= ws_end(s, i) <= s.len(),
    decreases s.len() - i,
{
    if i < s.len() && crate::text::ws_char(s[i]) {
        lemma_ws_end_bounds(s, i + 1);
    }
}

fn last_nl_exec(s: &Vec<char>, a: usize, b: usize) -> (r: Option<usize>)
    requires
        a <= b <= s@.len(),
    ensures
        match r {
            Some(m) => last_nl(s@, a as int, b as int) == Some(m as int),
            None => last_nl(s@, a as int, b as int) is None,
        },
{
    let mut k = b;
    while k > a
        invariant
            a <= k <= b <= s@.len(),
            last_nl(s@, a as int, b as int) == last_nl(s@, a as int, k as int),
        decreases k,
    {
        if s[k - 1] == '\n' {
            return Some(k - 1);
        }
        k = k - 1;
    }
    None
}

fn first_closing_exec(s: &Vec<char>, c: usize) -> (r: Option<(usize, usize)>)
    requires
        c <= s@.len(),
    ensures
        match r {
            Some(km) => first_closing(s@, c as int) == Some((km.0 as int, km.1 as int)),
            None => first_closing(s@, c as int) is None,
        },
{
    let n = s.len();
    let mut k = c;
    while k <= n && n - k >= 4
        invariant
            c <= k,
            n == s@.len(),
            first_closing(s@, c as int) == first_closing(s@, k as int),
        decreases n - k,
    {
        if s[k] == '\n' && s[k + 1] == '-' && s[k + 2] == '-' && s[k + 3] == '-' {
            assert(s@.subrange(k as int, k + 4) =~= close_marker());
            let e = ws_run_end(s, k + 4);
            match last_nl_exec(s, k + 4, e) {
                Some(m) => {
                    return Some((k, m));
                },
                None => {},
            }
        } else {
            assert(!occurs_at(s@, close_marker(), k as int)) by {
                if occurs_at(s@, close_marker(), k as int) {
                    let t = s@.subrange(k as int, k + 4);
                    assert(t[0] == s@[k as int] && t[1] == s@[k + 1] && t[2] == s@[k + 2] && t[3]
                        == s@[k + 3]);
                }
            }
        }
        k = k + 1;
    }
    None
}

/// Splits a document into its metadata block and its body, where it opens with one.
pub fn split_frontmatter(content: &str) -> (r: Option<(String, String)>)
    ensures
        match r {
            Some(p) => split_of(content@) == Some((p.0@, p.1@)),
            None => split_of(content@) is None,
        },
{
    let s = chars_of(content);
    let n = s.len();
    if !(n >= 3 && s[0] == '-' && s[1] == '-' && s[2] == '-') {
        return None;
    }
    let e0 = ws_run_end(&s, 3);
    let mut j: usize = e0;
    while j > 3
        invariant
            3 <= j <= e0 <= n == s@.len(),
            pick_open(s@, e0 - 1) == pick_open(s@, j - 1),
            e0 == ws_end(s@, 3),
            s@ == content@,
            s@[0] == '-' && s@[1] == '-' && s@[2] == '-',
        decreases j,
    {
        if s[j - 1] == '\n' {
            match first_closing_exec(&s, j) {
                Some(km) => {
                    proof {
                        lemma_first_closing_bounds(s@, j as int);
                        assert(pick_open(s@, j - 1) == Some((j - 1) as int));
                    }
                    let yaml = copy_range(&s, j, km.0);
                    let body = copy_range(&s, km.1 + 1, n);
                    return Some((string_of(yaml.as_slice()), string_of(body.as_slice())));
                },
                None => {},
            }
        }
        j = j - 1;
    }
    None
}

} // verus!
