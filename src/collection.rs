use vstd::prelude::*;
use crate::document::{strings_view, Paper};
use crate::text::{chars_of, string_of};

verus! {

/// The records processed so far, in order of processing.
pub struct PaperProcessor {
    papers: Vec<Paper>,
}

/// The tag `t` is one of the tags of some record.
pub open spec fn has_tag(papers: Seq<Paper>, t: Seq<char>) -> bool {
    exists|i: int, j: int|
        0 <= i < papers.len() && (#[trigger] papers[i]).tags is Some && 0 <= j
            < papers[i].tags->0@.len() && (#[trigger] papers[i].tags->0@[j])@ == t
}

/// `a` comes before `b` in the order of `String`: lexicographic by character.
pub open spec fn lex_lt(a: Seq<char>, b: Seq<char>) -> bool
    decreases a.len(),
{
    if b.len() == 0 {
        false
    } else if a.len() == 0 {
        true
    } else if a[0] != b[0] {
        a[0] < b[0]
    } else {
        lex_lt(a.drop_first(), b.drop_first())
    }
}

/// The sequence is strictly increasing.
pub open spec fn strictly_sorted(v: Seq<Seq<char>>) -> bool {
    forall|i: int, j: int| 0 <= i < j < v.len() ==> lex_lt(#[trigger] v[i], #[trigger] v[j])
}

proof fn lemma_lex_irreflexive(a: Seq<char>)
    ensures
        !lex_lt(a, a),
    decreases a.len(),
{
    if a.len() > 0 {
        lemma_lex_irreflexive(a.drop_first());
    }
}

proof fn lemma_lex_transitive(a: Seq<char>, b: Seq<char>, c: Seq<char>)
    requires
        lex_lt(a, b),
        lex_lt(b, c),
    ensures
        lex_lt(a, c),
    decreases a.len(),
{
    if a.len() > 0 && a[0] == b[0] && b[0] == c[0] {
        lemma_lex_transitive(a.drop_first(), b.drop_first(), c.drop_first());
    }
}

proof fn lemma_lex_total(a: Seq<char>, b: Seq<char>)
    requires
        a != b,
    ensures
        lex_lt(a, b) || lex_lt(b, a),
    decreases a.len(),
{
    if a.len() > 0 && b.len() > 0 && a[0] == b[0] {
        if a.drop_first() == b.drop_first() {
            assert(a =~= seq![a[0]] + a.drop_first());
            assert(b =~= seq![b[0]] + b.drop_first());
        }
        lemma_lex_total(a.drop_first(), b.drop_first());
    } else if a.len() == 0 && b.len() == 0 {
        assert(a =~= b);
    }
}

/// Whether `a` comes before `b`.
fn lex_less(a: &Vec<char>, b: &Vec<char>) -> (r: bool)
    ensures
        r == lex_lt(a@, b@),
{
    let mut i: usize = 0;
    assert(a@.skip(0) =~= a@ && b@.skip(0) =~= b@);
    while i < a.len() && i < b.len() && a[i] == b[i]
        invariant
            i <= a@.len(),
            i <= b@.len(),
            lex_lt(a@, b@) == lex_lt(a@.skip(i as int), b@.skip(i as int)),
        decreases a@.len() - i,
    {
        assert(a@.skip(i as int).drop_first() =~= a@.skip(i + 1));
        assert(b@.skip(i as int).drop_first() =~= b@.skip(i + 1));
        i = i + 1;
    }
    if i >= b.len() {
        false
    } else if i >= a.len() {
        true
    } else {
        a[i] < b[i]
    }
}

/// `t` is one of the first `n` tags.
pub open spec fn tag_in(tags: Seq<String>, n: int, t: Seq<char>) -> bool {
    exists|q: int| 0 <= q < n && (#[trigger] tags[q])@ == t
}

/// The tags of a record; none where it has no tag list.
pub open spec fn tags_of(p: Paper) -> Seq<String> {
    match p.tags {
        Some(v) => v@,
        None => seq![],
    }
}

proof fn lemma_has_tag_step(papers: Seq<Paper>, i: int, t: Seq<char>)
    requires
        0 <= i < papers.len(),
    ensures
        has_tag(papers.take(i + 1), t) <==> (has_tag(papers.take(i), t) || tag_in(
            tags_of(papers[i]),
            tags_of(papers[i]).len() as int,
            t,
        )),
{
    let before = papers.take(i);
    let after = papers.take(i + 1);
    let own = tags_of(papers[i]);
    if has_tag(after, t) {
        let (a, b) = choose|a: int, b: int|
            0 <= a < after.len() && (#[trigger] after[a]).tags is Some && 0 <= b < after[a].tags->0@.len()
                && (#[trigger] after[a].tags->0@[b])@ == t;
        if a < i {
            assert(before[a] == after[a]);
        } else {
            assert(own[b]@ == t);
        }
    }
    if has_tag(before, t) {
        let (a, b) = choose|a: int, b: int|
            0 <= a < before.len() && (#[trigger] before[a]).tags is Some && 0 <= b < before[a].tags->0@.len()
                && (#[trigger] before[a].tags->0@[b])@ == t;
        assert(after[a] == before[a]);
    }
    if tag_in(own, own.len() as int, t) {
        let q = choose|q: int| 0 <= q < own.len() && (#[trigger] own[q])@ == t;
        assert(after[i] == papers[i]);
        assert(after[i].tags->0@[q]@ == t);
    }
}

impl View for PaperProcessor {
    type V = Seq<Paper>;

    closed spec fn view(&self) -> Seq<Paper> {
        self.papers@
    }
}

impl PaperProcessor {
    /// An empty collection.
    pub fn new() -> (r: PaperProcessor)
        ensures
            r@.len() == 0,
    {
        PaperProcessor { papers: Vec::new() }
    }

    /// Adds a record at the end.
    pub fn add_paper(&mut self, paper: Paper)
        ensures
            final(self)@ == old(self)@.push(paper),
    {
        self.papers.push(paper);
    }

    /// Removes every record.
    pub fn clear(&mut self)
        ensures
            final(self)@.len() == 0,
    {
        self.papers.clear();
    }

    /// The number of records.
    pub fn get_paper_count(&self) -> (r: usize)
        ensures
            r == self@.len(),
    {
        self.papers.len()
    }

    /// The records, in order.
    pub fn papers(&self) -> (r: &Vec<Paper>)
        ensures
            r@ == self@,
    {
        &self.papers
    }

    /// The slugs of the records, in order.
    pub fn get_paper_slugs(&self) -> (r: Vec<String>)
        ensures
            strings_view(r@) == self@.map_values(|p: Paper| p.slug@),
    {
        let mut out: Vec<String> = Vec::new();
        let mut i: usize = 0;
        while i < self.papers.len()
            invariant
                i <= self.papers@.len(),
                strings_view(out@) == self.papers@.take(i as int).map_values(|p: Paper| p.slug@),
            decreases self.papers@.len() - i,
        {
            let ghost prev = strings_view(out@);
            let slug = self.papers[i].slug.clone();
            assert(slug@ == self.papers@[i as int].slug@);
            out.push(slug);
            assert(strings_view(out@) =~= prev.push(self.papers@[i as int].slug@));
            assert(self.papers@.take(i + 1).map_values(|p: Paper| p.slug@) =~= self.papers@.take(
                i as int,
            ).map_values(|p: Paper| p.slug@).push(self.papers@[i as int].slug@));
            i = i + 1;
        }
        assert(self.papers@.take(i as int) =~= self.papers@);
        out
    }

    /// The position of the first record with the given slug.
    pub fn get_paper_by_slug(&self, slug: &str) -> (r: Option<usize>)
        ensures
            match r {
                Some(i) => i < self@.len() && self@[i as int].slug@ == slug@ && forall|k: int|
                    0 <= k < i ==> (#[trigger] self@[k]).slug@ != slug@,
                None => forall|k: int| 0 <= k < self@.len() ==> (#[trigger] self@[k]).slug@ != slug@,
            },
    {
        let key = slug.to_owned();
        let mut i: usize = 0;
        while i < self.papers.len()
            invariant
                i <= self.papers@.len(),
                key@ == slug@,
                forall|k: int| 0 <= k < i ==> (#[trigger] self.papers@[k]).slug@ != slug@,
            decreases self.papers@.len() - i,
        {
            if self.papers[i].slug == key {
                return Some(i);
            }
            i = i + 1;
        }
        None
    }

    /// Every tag of every record, each once, in order of first appearance.
    #[verifier::spinoff_prover]
    fn distinct_tags(&self) -> (r: Vec<String>)
        ensures
            strings_view(r@).no_duplicates(),
            forall|t: Seq<char>| strings_view(r@).contains(t) <==> has_tag(self@, t),
    {
        let mut out: Vec<String> = Vec::new();
        let mut i: usize = 0;
        while i < self.papers.len()
            invariant
                i <= self.papers@.len(),
                strings_view(out@).no_duplicates(),
                forall|t: Seq<char>|
                    strings_view(out@).contains(t) <==> has_tag(self.papers@.take(i as int), t),
            decreases self.papers@.len() - i,
        {
            let ghost before = self.papers@.take(i as int);
            let ghost after = self.papers@.take(i + 1);
            match &self.papers[i].tags {
                Some(tags) => {
                    let mut j: usize = 0;
                    while j < tags.len()
                        invariant
                            j <= tags@.len(),
                            self.papers@[i as int].tags == Some(*tags),
                            before == self.papers@.take(i as int),
                            after == self.papers@.take(i + 1),
                            i < self.papers@.len(),
                            strings_view(out@).no_duplicates(),
                            forall|t: Seq<char>|
                                strings_view(out@).contains(t) <==> (has_tag(before, t) || tag_in(tags@, j as int, t)),
                        decreases tags@.len() - j,
                    {
                        let tag = &tags[j];
                        let mut k: usize = 0;
                        let mut seen = false;
                        while k < out.len()
                            invariant
                                k <= out@.len(),
                                strings_view(out@).no_duplicates(),
                                forall|t: Seq<char>|
                                    strings_view(out@).contains(t) <==> (has_tag(before, t) || tag_in(tags@, j as int, t)),
                                seen == exists|p: int| 0 <= p < k && (#[trigger] out@[p])@ == tag@,
                            decreases out@.len() - k,
                        {
                            if out[k] == *tag {
                                seen = true;
                            }
                            k = k + 1;
                        }
                        let ghost prev = strings_view(out@);
                        let ghost tv = tag@;
                        assert(forall|t: Seq<char>| #[trigger] prev.contains(t) <==> (has_tag(before, t) || tag_in(tags@, j as int, t)));
                        if !seen {
                            out.push(tag.clone());
                        }
                        proof {
                            let nv = strings_view(out@);
                            if !seen {
                                assert(nv =~= prev.push(tv));
                                assert forall|p: int| 0 <= p < prev.len() implies prev[p] != tv by {
                                    assert(out@[p]@ == prev[p]);
                                }
                            } else {
                                assert(nv =~= prev);
                                let p = choose|p: int| 0 <= p < out@.len() && (#[trigger] out@[p])@ == tv;
                                assert(prev[p] == tv);
                            }
                            assert forall|t: Seq<char>| nv.contains(t) <==> (prev.contains(t) || t == tv) by {
                                if !seen {
                                    if t == tv {
                                        assert(nv[prev.len() as int] == t);
                                    }
                                    if prev.contains(t) {
                                        let p = choose|p: int| 0 <= p < prev.len() && prev[p] == t;
                                        assert(nv[p] == t);
                                    }
                                    if nv.contains(t) {
                                        let p = choose|p: int| 0 <= p < nv.len() && nv[p] == t;
                                        if p < prev.len() {
                                            assert(prev[p] == t);
                                        }
                                    }
                                }
                            }
                            assert forall|t: Seq<char>|
                                #[trigger] tag_in(tags@, j + 1, t) <==> (tag_in(tags@, j as int, t) || t == tv) by {
                                if t == tv {
                                    assert(tags@[j as int]@ == t);
                                }
                                if tag_in(tags@, j + 1, t) {
                                    let q = choose|q: int| 0 <= q < j + 1 && (#[trigger] tags@[q])@ == t;
                                    if q < j {
                                        assert(tag_in(tags@, j as int, t));
                                    }
                                }
                            }
                            assert forall|t: Seq<char>| nv.contains(t) <==> (has_tag(before, t) || tag_in(tags@, j + 1, t)) by {
                                assert(tag_in(tags@, j + 1, t) <==> (tag_in(tags@, j as int, t) || t == tv));
                                assert(nv.contains(t) <==> (prev.contains(t) || t == tv));
                                assert(prev.contains(t) <==> (has_tag(before, t) || tag_in(tags@, j as int, t)));
                                if t == tv {
                                    assert(tags@[j as int]@ == t);
                                }
                            }
                        }
                        j = j + 1;
                    }
                    proof {
                        assert(j == tags@.len());
                        assert(tags_of(self.papers@[i as int]) == tags@);
                        assert forall|t: Seq<char>| strings_view(out@).contains(t) <==> has_tag(after, t) by {
                            assert(strings_view(out@).contains(t) <==> (has_tag(before, t) || tag_in(tags@, j as int, t)));
                            lemma_has_tag_step(self.papers@, i as int, t);
                        }
                    }
                },
                None => {
                    proof {
                        assert forall|t: Seq<char>| strings_view(out@).contains(t) <==> has_tag(after, t) by {
                            assert(strings_view(out@).contains(t) <==> has_tag(before, t));
                            lemma_has_tag_step(self.papers@, i as int, t);
                        }
                    }
                },
            }
            i = i + 1;
        }
        assert(self.papers@.take(i as int) =~= self.papers@);
        out
    }

    /// Every tag of every record, each once, in the order of `String`.
    pub fn extract_categories(&self) -> (r: Vec<String>)
        ensures
            strictly_sorted(strings_view(r@)),
            forall|t: Seq<char>| strings_view(r@).contains(t) <==> has_tag(self@, t),
    {
        let tags = self.distinct_tags();
        let ghost tv = strings_view(tags@);
        let mut keys: Vec<Vec<char>> = Vec::new();
        let mut i: usize = 0;
        while i < tags.len()
            invariant
                i <= tags@.len(),
                tv == strings_view(tags@),
                tv.no_duplicates(),
                strictly_sorted(keys@.map_values(|k: Vec<char>| k@)),
                forall|t: Seq<char>|
                    keys@.map_values(|k: Vec<char>| k@).contains(t) <==> tv.take(i as int).contains(t),
            decreases tags@.len() - i,
        {
            let ghost kv = keys@.map_values(|k: Vec<char>| k@);
            let key = chars_of(tags[i].as_str());
            let ghost t = key@;
            assert(t == tv[i as int]);
            let mut p: usize = 0;
            while p < keys.len() && lex_less(&keys[p], &key)
                invariant
                    p <= keys@.len(),
                    kv == keys@.map_values(|k: Vec<char>| k@),
                    t == key@,
                    forall|q: int| 0 <= q < p ==> lex_lt(#[trigger] kv[q], t),
                decreases keys@.len() - p,
            {
                assert(kv[p as int] == keys@[p as int]@);
                p = p + 1;
            }
            proof {
                assert(!kv.contains(t)) by {
                    if kv.contains(t) {
                        let q = choose|q: int| 0 <= q < kv.len() && kv[q] == t;
                        assert(tv.take(i as int).contains(t));
                        let w = choose|w: int| 0 <= w < i && #[trigger] tv.take(i as int)[w] == t;
                        assert(tv[w] == tv[i as int]);
                    }
                }
                if p < kv.len() {
                    assert(!lex_lt(kv[p as int], t));
                    assert(kv[p as int] != t);
                    lemma_lex_total(kv[p as int], t);
                    assert forall|q: int| p <= q < kv.len() implies lex_lt(t, #[trigger] kv[q]) by {
                        if q > p {
                            lemma_lex_transitive(t, kv[p as int], kv[q]);
                        }
                    }
                }
            }
            keys.insert(p, key);
            proof {
                let nv = keys@.map_values(|k: Vec<char>| k@);
                assert(nv =~= kv.insert(p as int, t));
                assert forall|a: int, b: int| 0 <= a < b < nv.len() implies lex_lt(#[trigger] nv[a], #[trigger] nv[b]) by {
                    if b < p {
                        assert(nv[a] == kv[a] && nv[b] == kv[b]);
                    } else if b == p {
                        assert(nv[a] == kv[a]);
                    } else if a < p {
                        assert(nv[a] == kv[a] && nv[b] == kv[b - 1]);
                        assert(lex_lt(kv[a], t));
                        assert(lex_lt(t, kv[b - 1]));
                        lemma_lex_transitive(kv[a], t, kv[b - 1]);
                    } else if a == p {
                        assert(nv[b] == kv[b - 1]);
                    } else {
                        assert(nv[a] == kv[a - 1] && nv[b] == kv[b - 1]);
                    }
                }
                assert(tv.take(i + 1) =~= tv.take(i as int).push(t));
                assert forall|x: Seq<char>| nv.contains(x) <==> tv.take(i + 1).contains(x) by {
                    if nv.contains(x) {
                        let q = choose|q: int| 0 <= q < nv.len() && nv[q] == x;
                        if x != t {
                            let q2 = if q < p { q } else { q - 1 };
                            assert(q != p);
                            assert(kv[q2] == x);
                            assert(0 <= q2 < kv.len());
                            assert(kv.contains(x));
                            assert(tv.take(i as int).contains(x));
                            let w = choose|w: int| 0 <= w < i && #[trigger] tv.take(i as int)[w] == x;
                            assert(tv.take(i + 1)[w] == x);
                        } else {
                            assert(tv.take(i + 1)[i as int] == x);
                        }
                    }
                    if tv.take(i + 1).contains(x) {
                        let w = choose|w: int| 0 <= w < i + 1 && #[trigger] tv.take(i + 1)[w] == x;
                        if w == i {
                            assert(nv[p as int] == x);
                        } else {
                            assert(tv.take(i as int)[w] == x);
                            assert(tv.take(i as int).contains(x));
                            assert(kv.contains(x));
                            let q = choose|q: int| 0 <= q < kv.len() && kv[q] == x;
                            if q < p {
                                assert(nv[q] == x);
                            } else {
                                assert(nv[q + 1] == x);
                            }
                        }
                    }
                }
            }
            i = i + 1;
        }
        let mut out: Vec<String> = Vec::new();
        let mut j: usize = 0;
        let ghost kv = keys@.map_values(|k: Vec<char>| k@);
        while j < keys.len()
            invariant
                j <= keys@.len(),
                kv == keys@.map_values(|k: Vec<char>| k@),
                strings_view(out@) == kv.take(j as int),
            decreases keys@.len() - j,
        {
            let st = string_of(keys[j].as_slice());
            assert(keys@[j as int]@ == kv[j as int]);
            assert(st@ == kv[j as int]);
            let ghost prev = strings_view(out@);
            out.push(st);
            assert(strings_view(out@) =~= prev.push(st@));
            assert(kv.take(j + 1) =~= kv.take(j as int).push(kv[j as int]));
            j = j + 1;
        }
        proof {
            assert(kv.take(j as int) =~= kv);
            assert(tv.take(tags@.len() as int) =~= tv);
        }
        out
    }
}

} // verus!
