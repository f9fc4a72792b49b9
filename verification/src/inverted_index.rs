use vstd::prelude::*;
use crate::text::{str_eq, views_of};
use crate::tokenizer::{tokenize, tokens_of};

verus! {

broadcast use vstd::seq_lib::group_seq_properties;

/// The set a map holds for a word, or the empty set where the word is absent.
pub open spec fn set_at(m: Map<Seq<char>, Set<Seq<char>>>, w: Seq<char>) -> Set<Seq<char>> {
    if m.contains_key(w) {
        m[w]
    } else {
        Set::empty()
    }
}

/// The index after one document is merged in: every word of `words` maps to
/// its old set extended with `doc`; every other word keeps its set.
pub open spec fn merged_with(
    m: Map<Seq<char>, Set<Seq<char>>>,
    words: Seq<Seq<char>>,
    doc: Seq<char>,
) -> Map<Seq<char>, Set<Seq<char>>> {
    Map::new(
        |w: Seq<char>| m.contains_key(w) || words.contains(w),
        |w: Seq<char>|
            if words.contains(w) {
                set_at(m, w).insert(doc)
            } else {
                m[w]
            },
    )
}

/// The word-set and document of each contribution, as character sequences.
pub open spec fn contrib_views(cs: Seq<(Vec<String>, String)>) -> Seq<(Seq<Seq<char>>, Seq<char>)> {
    cs.map_values(|p: (Vec<String>, String)| (views_of(p.0@), p.1@))
}

/// The index that merging every contribution of `cs` into `m` yields: a word
/// maps to its old set joined with every contributed document whose word set
/// holds the word. The definition looks only at which contributions occur in
/// `cs`, never at their positions, so it is order-free by construction.
pub open spec fn merged_all(
    m: Map<Seq<char>, Set<Seq<char>>>,
    cs: Seq<(Seq<Seq<char>>, Seq<char>)>,
) -> Map<Seq<char>, Set<Seq<char>>> {
    Map::new(
        |w: Seq<char>|
            m.contains_key(w) || exists|p: (Seq<Seq<char>>, Seq<char>)|
                #[trigger] cs.contains(p) && p.0.contains(w),
        |w: Seq<char>|
            set_at(m, w).union(
                Set::new(
                    |d: Seq<char>|
                        exists|p: (Seq<Seq<char>>, Seq<char>)|
                            #[trigger] cs.contains(p) && p.1 == d && p.0.contains(w),
                ),
            ),
    )
}

/// Whether some string of `v` holds exactly the characters of `w`.
pub fn contains_str(v: &Vec<String>, w: &str) -> (r: bool)
    ensures
        r == views_of(v@).contains(w@),
{
    let mut i: usize = 0;
    while i < v.len()
        invariant
            i <= v@.len(),
            forall|j: int| 0 <= j < i ==> (#[trigger] views_of(v@)[j]) != w@,
        decreases v@.len() - i,
    {
        if str_eq(v[i].as_str(), w) {
            proof {
                assert(views_of(v@)[i as int] == w@);
            }
            return true;
        }
        i += 1;
    }
    false
}

spec fn entries_wf(es: Seq<(String, Vec<String>)>) -> bool {
    &&& forall|i: int, j: int|
        0 <= i < j < es.len() ==> (#[trigger] es[i].0@) != (#[trigger] es[j].0@)
    &&& forall|i: int| 0 <= i < es.len() ==> (#[trigger] views_of(es[i].1@)).no_duplicates()
}

spec fn has_entry(es: Seq<(String, Vec<String>)>, w: Seq<char>) -> bool {
    exists|i: int| 0 <= i < es.len() && (#[trigger] es[i].0@) == w
}

spec fn entry_at(es: Seq<(String, Vec<String>)>, w: Seq<char>) -> int {
    choose|i: int| 0 <= i < es.len() && (#[trigger] es[i].0@) == w
}

spec fn entries_view(es: Seq<(String, Vec<String>)>) -> Map<Seq<char>, Set<Seq<char>>> {
    Map::new(
        |w: Seq<char>| has_entry(es, w),
        |w: Seq<char>| views_of(es[entry_at(es, w)].1@).to_set(),
    )
}

/// The word's set in an index is the document list of its (unique) entry.
proof fn lemma_entries_view_at(es: Seq<(String, Vec<String>)>, i: int)
    requires
        entries_wf(es),
        0 <= i < es.len(),
    ensures
        entries_view(es).contains_key(es[i].0@),
        entries_view(es)[es[i].0@] == views_of(es[i].1@).to_set(),
{
    let w = es[i].0@;
    assert(has_entry(es, w));
    let j = entry_at(es, w);
    assert(0 <= j < es.len() && es[j].0@ == w);
    assert(j == i);
}

/// Appending a fresh document to the entry of word `w` turns the index map
/// into the old map with `w`'s set extended by that document.
proof fn lemma_push_doc(
    es0: Seq<(String, Vec<String>)>,
    es1: Seq<(String, Vec<String>)>,
    i: int,
    d: Seq<char>,
)
    requires
        entries_wf(es0),
        0 <= i < es0.len(),
        !views_of(es0[i].1@).contains(d),
        es1.len() == es0.len(),
        forall|j: int| 0 <= j < es0.len() && j != i ==> es1[j] == es0[j],
        es1[i].0 == es0[i].0,
        views_of(es1[i].1@) == views_of(es0[i].1@).push(d),
    ensures
        entries_wf(es1),
        entries_view(es1) == entries_view(es0).insert(
            es0[i].0@,
            set_at(entries_view(es0), es0[i].0@).insert(d),
        ),
{
    let w = es0[i].0@;
    assert forall|j: int| 0 <= j < es1.len() implies (#[trigger] es1[j].0@) == es0[j].0@ by {}
    assert forall|j: int| 0 <= j < es1.len() implies (#[trigger] views_of(
        es1[j].1@,
    )).no_duplicates() by {
        if j == i {
            let s = views_of(es0[i].1@);
            assert(views_of(es1[i].1@) == s.push(d));
            assert forall|p: int, q: int| 0 <= p < q < s.push(d).len() implies s.push(d)[p] != s.push(
                d,
            )[q] by {
                if q == s.len() {
                    assert(s.contains(s[p]));
                }
            }
        }
    }
    assert(entries_wf(es1));
    let a = entries_view(es1);
    let b = entries_view(es0).insert(w, set_at(entries_view(es0), w).insert(d));
    assert forall|x: Seq<char>| has_entry(es1, x) implies has_entry(es0, x) by {
        let j = choose|j: int| 0 <= j < es1.len() && (#[trigger] es1[j].0@) == x;
        assert(es0[j].0@ == x);
    }
    assert forall|x: Seq<char>| has_entry(es0, x) implies has_entry(es1, x) by {
        let j = choose|j: int| 0 <= j < es0.len() && (#[trigger] es0[j].0@) == x;
        assert(es1[j].0@ == x);
    }
    lemma_entries_view_at(es0, i);
    lemma_entries_view_at(es1, i);
    views_of(es0[i].1@).lemma_push_to_set_commute(d);
    assert(a[w] == b[w]);
    assert forall|x: Seq<char>| #[trigger] a.contains_key(x) && x != w implies a[x] == b[x] by {
        let j = choose|j: int| 0 <= j < es0.len() && (#[trigger] es0[j].0@) == x;
        assert(j != i);
        lemma_entries_view_at(es0, j);
        lemma_entries_view_at(es1, j);
    }
    assert(a =~~= b);
}

/// Appending a new `(word, one document)` entry turns the index map into the
/// old map with that word bound to the one-document set.
proof fn lemma_push_entry(
    es0: Seq<(String, Vec<String>)>,
    es1: Seq<(String, Vec<String>)>,
    w: Seq<char>,
    d: Seq<char>,
)
    requires
        entries_wf(es0),
        !has_entry(es0, w),
        es1.len() == es0.len() + 1,
        forall|j: int| 0 <= j < es0.len() ==> es1[j] == es0[j],
        es1[es0.len() as int].0@ == w,
        views_of(es1[es0.len() as int].1@) == seq![d],
    ensures
        entries_wf(es1),
        entries_view(es1) == entries_view(es0).insert(
            w,
            set_at(entries_view(es0), w).insert(d),
        ),
{
    let n = es0.len() as int;
    assert forall|j: int| 0 <= j < es0.len() implies (#[trigger] es1[j].0@) == es0[j].0@ by {}
    assert forall|j: int| 0 <= j < es1.len() implies (#[trigger] views_of(
        es1[j].1@,
    )).no_duplicates() by {
        if j == n {
            assert(views_of(es1[j].1@) == seq![d]);
        }
    }
    assert forall|i: int, j: int| 0 <= i < j < es1.len() implies (#[trigger] es1[i].0@) != (
    #[trigger] es1[j].0@) by {
        if j == n {
            assert(es0[i].0@ == es1[i].0@);
            assert(has_entry(es0, es0[i].0@));
        }
    }
    assert(entries_wf(es1));
    let a = entries_view(es1);
    let b = entries_view(es0).insert(w, set_at(entries_view(es0), w).insert(d));
    assert forall|x: Seq<char>| has_entry(es0, x) implies has_entry(es1, x) by {
        let j = choose|j: int| 0 <= j < es0.len() && (#[trigger] es0[j].0@) == x;
        assert(es1[j].0@ == x);
    }
    assert(has_entry(es1, w));
    lemma_entries_view_at(es1, n);
    assert(seq![d].to_set() =~= Set::empty().insert(d)) by {
        assert forall|x: Seq<char>| seq![d].contains(x) implies x == d by {
            let k = choose|k: int| 0 <= k < seq![d].len() && seq![d][k] == x;
        }
        assert(seq![d][0] == d);
    }
    assert(a[w] == b[w]);
    assert forall|x: Seq<char>| #[trigger] a.contains_key(x) && x != w implies a[x] == b[x]
        && b.contains_key(x) by {
        let j = choose|j: int| 0 <= j < es1.len() && (#[trigger] es1[j].0@) == x;
        assert(j != n);
        assert(es0[j].0@ == x);
        lemma_entries_view_at(es0, j);
        lemma_entries_view_at(es1, j);
    }
    assert(a =~~= b);
}

/// Maps each indexed word to the set of documents whose text contains it.
/// A document is identified by its resolved path, held as a plain string.
pub struct InvertedIndex {
    entries: Vec<(String, Vec<String>)>,
}

impl View for InvertedIndex {
    type V = Map<Seq<char>, Set<Seq<char>>>;

    closed spec fn view(&self) -> Map<Seq<char>, Set<Seq<char>>> {
        entries_view(self.entries@)
    }
}

impl InvertedIndex {
    #[verifier::type_invariant]
    spec fn wf(&self) -> bool {
        entries_wf(self.entries@)
    }

    /// Creates an empty index: no word maps to anything.
    pub fn new() -> (r: Self)
        ensures
            r@ == Map::<Seq<char>, Set<Seq<char>>>::empty(),
    {
        let r = InvertedIndex { entries: Vec::new() };
        proof {
            assert(r@ =~= Map::<Seq<char>, Set<Seq<char>>>::empty());
        }
        r
    }

    /// Empties the index, as the benchmark loop does between rebuilds.
    pub fn clear(&mut self)
        ensures
            final(self)@ == Map::<Seq<char>, Set<Seq<char>>>::empty(),
    {
        self.entries = Vec::new();
        proof {
            assert(self@ =~= Map::<Seq<char>, Set<Seq<char>>>::empty());
        }
    }

    /// Looks a word up. Returns the documents recorded for it, or nothing if
    /// the word was never indexed. No normalization happens here: the caller
    /// matches the indexed form of the word exactly.
    pub fn search<'a>(&'a self, word: &str) -> (r: Option<&'a Vec<String>>)
        ensures
            match r {
                Some(docs) => self@.contains_key(word@) && views_of(docs@).to_set()
                    == self@[word@] && views_of(docs@).no_duplicates(),
                None => !self@.contains_key(word@),
            },
    {
        proof {
            use_type_invariant(self);
        }
        let n = self.entries.len();
        let mut i: usize = 0;
        while i < n
            invariant
                self.wf(),
                n == self.entries.len(),
                i <= n,
                forall|j: int| 0 <= j < i ==> (#[trigger] self.entries@[j].0@) != word@,
            decreases n - i,
        {
            if str_eq(self.entries[i].0.as_str(), word) {
                proof {
                    lemma_entries_view_at(self.entries@, i as int);
                }
                return Some(&self.entries[i].1);
            }
            i += 1;
        }
        proof {
            assert(!has_entry(self.entries@, word@));
        }
        None
    }

    /// Records that document `doc` contains `word`: adds `doc` to the word's
    /// set, creating the entry where the word is new. Recording a pair that
    /// is already present changes nothing.
    pub fn insert_word_doc(&mut self, word: &String, doc: &String)
        ensures
            final(self)@ == old(self)@.insert(word@, set_at(old(self)@, word@).insert(doc@)),
    {
        proof {
            use_type_invariant(&*self);
        }
        let ghost m0 = self@;
        let mut entries: Vec<(String, Vec<String>)> = Vec::new();
        core::mem::swap(&mut entries, &mut self.entries);
        let ghost es0 = entries@;
        let n = entries.len();
        let mut i: usize = 0;
        let mut found: bool = false;
        while i < n && !found
            invariant
                entries@ == es0,
                n == es0.len(),
                i <= n,
                found ==> i < n && es0[i as int].0@ == word@,
                !found ==> forall|j: int| 0 <= j < i ==> (#[trigger] es0[j].0@) != word@,
            decreases n - i + (if found {
                0int
            } else {
                1int
            }),
        {
            if str_eq(entries[i].0.as_str(), word.as_str()) {
                found = true;
            } else {
                i += 1;
            }
        }
        if found {
            if !contains_str(&entries[i].1, doc.as_str()) {
                entries[i].1.push(doc.clone());
                proof {
                    assert(views_of(entries@[i as int].1@) =~= views_of(es0[i as int].1@).push(
                        doc@,
                    ));
                    lemma_push_doc(es0, entries@, i as int, doc@);
                }
            } else {
                proof {
                    lemma_entries_view_at(es0, i as int);
                    assert(entries_view(es0) =~~= entries_view(es0).insert(
                        word@,
                        set_at(entries_view(es0), word@).insert(doc@),
                    ));
                }
            }
        } else {
            let mut docs: Vec<String> = Vec::new();
            docs.push(doc.clone());
            entries.push((word.clone(), docs));
            proof {
                assert(views_of(entries@[es0.len() as int].1@) =~= seq![doc@]);
                lemma_push_entry(es0, entries@, word@, doc@);
            }
        }
        self.entries = entries;
    }

    /// Merges one document's word set into the index: every word of `words`
    /// gains `doc`. Only the single merging context ever calls this.
    pub fn insert_words(&mut self, words: &Vec<String>, doc: &String)
        ensures
            final(self)@ == merged_with(old(self)@, views_of(words@), doc@),
    {
        let ghost m0 = self@;
        let ghost ws = views_of(words@);
        proof {
            assert(self@ =~~= merged_with(m0, ws.take(0), doc@));
        }
        let n = words.len();
        let mut k: usize = 0;
        while k < n
            invariant
                n == words@.len(),
                k <= n,
                ws == views_of(words@),
                self@ == merged_with(m0, ws.take(k as int), doc@),
            decreases n - k,
        {
            self.insert_word_doc(&words[k], doc);
            proof {
                assert(words@[k as int]@ == ws[k as int]);
                lemma_merged_with_step(m0, ws, k as int, doc@);
            }
            k += 1;
        }
        proof {
            assert(ws.take(ws.len() as int) == ws);
        }
    }

    /// Merges every `(word set, document)` contribution of one build, in the
    /// order given. By `lemma_merge_order_independent`, the resulting index
    /// depends only on which contributions arrived, never on their order.
    pub fn merge_contributions(&mut self, contribs: &Vec<(Vec<String>, String)>)
        ensures
            final(self)@ == merged_all(old(self)@, contrib_views(contribs@)),
    {
        let ghost m0 = self@;
        let ghost cs = contrib_views(contribs@);
        proof {
            lemma_merged_all_empty(m0, cs);
        }
        let n = contribs.len();
        let mut k: usize = 0;
        while k < n
            invariant
                n == contribs@.len(),
                k <= n,
                cs == contrib_views(contribs@),
                self@ == merged_all(m0, cs.take(k as int)),
            decreases n - k,
        {
            self.insert_words(&contribs[k].0, &contribs[k].1);
            proof {
                assert(cs[k as int] == (views_of(contribs@[k as int].0@), contribs@[k as int].1@));
                lemma_merged_all_step(m0, cs, k as int);
            }
            k += 1;
        }
        proof {
            assert(cs.take(cs.len() as int) == cs);
        }
    }
}

proof fn lemma_merged_with_step(
    m: Map<Seq<char>, Set<Seq<char>>>,
    ws: Seq<Seq<char>>,
    k: int,
    doc: Seq<char>,
)
    requires
        0 <= k < ws.len(),
    ensures
        merged_with(m, ws.take(k + 1), doc) == merged_with(m, ws.take(k), doc).insert(
            ws[k],
            set_at(merged_with(m, ws.take(k), doc), ws[k]).insert(doc),
        ),
{
    let a = merged_with(m, ws.take(k + 1), doc);
    let mk = merged_with(m, ws.take(k), doc);
    let b = mk.insert(ws[k], set_at(mk, ws[k]).insert(doc));
    assert(ws.take(k + 1) =~= ws.take(k).push(ws[k]));
    assert forall|w: Seq<char>| #[trigger] ws.take(k + 1).contains(w) implies ws.take(k).contains(w)
        || w == ws[k] by {
        let idx = choose|idx: int| 0 <= idx < ws.take(k + 1).len() && #[trigger] ws.take(k + 1)[idx] == w;
        if idx < k {
            assert(ws.take(k)[idx] == w);
        }
    }
    assert forall|w: Seq<char>| ws.take(k).contains(w) implies ws.take(k + 1).contains(w) by {
        let idx = choose|idx: int| 0 <= idx < ws.take(k).len() && #[trigger] ws.take(k)[idx] == w;
        assert(ws.take(k + 1)[idx] == w);
    }
    assert(ws.take(k + 1)[k] == ws[k]);
    assert(ws.take(k + 1).contains(ws[k]));
    assert forall|w: Seq<char>| a.contains_key(w) implies #[trigger] b.contains_key(w) by {}
    assert forall|w: Seq<char>| b.contains_key(w) implies #[trigger] a.contains_key(w) by {}
    assert forall|w: Seq<char>| #[trigger] a.contains_key(w) implies a[w] =~= b[w] by {
        if w == ws[k] {
            if ws.take(k).contains(w) {
                assert(a[w] == set_at(m, w).insert(doc));
                assert(b[w] == set_at(m, w).insert(doc).insert(doc));
                assert(set_at(m, w).insert(doc).insert(doc) =~= set_at(m, w).insert(doc));
            }
        }
    }
    assert(a =~~= b);
}

proof fn lemma_merged_all_empty(
    m: Map<Seq<char>, Set<Seq<char>>>,
    cs: Seq<(Seq<Seq<char>>, Seq<char>)>,
)
    ensures
        merged_all(m, cs.take(0)) == m,
{
    assert(cs.take(0) =~= Seq::<(Seq<Seq<char>>, Seq<char>)>::empty());
    assert forall|p: (Seq<Seq<char>>, Seq<char>)| !(#[trigger] cs.take(0).contains(p)) by {}
    assert forall|w: Seq<char>| #[trigger] merged_all(m, cs.take(0)).contains_key(w) implies m
        .contains_key(w) by {}
    assert forall|w: Seq<char>| m.contains_key(w) implies merged_all(m, cs.take(0))[w] =~= m[w] by {
        assert(Set::new(
            |d: Seq<char>|
                exists|p: (Seq<Seq<char>>, Seq<char>)|
                    #[trigger] cs.take(0).contains(p) && p.1 == d && p.0.contains(w),
        ) =~= Set::<Seq<char>>::empty());
    }
    assert(merged_all(m, cs.take(0)) =~~= m);
}

proof fn lemma_merged_all_step(
    m: Map<Seq<char>, Set<Seq<char>>>,
    cs: Seq<(Seq<Seq<char>>, Seq<char>)>,
    k: int,
)
    requires
        0 <= k < cs.len(),
    ensures
        merged_all(m, cs.take(k + 1)) == merged_with(merged_all(m, cs.take(k)), cs[k].0, cs[k].1),
{
    let a = merged_all(m, cs.take(k + 1));
    let mk = merged_all(m, cs.take(k));
    let b = merged_with(mk, cs[k].0, cs[k].1);
    assert(cs.take(k + 1) =~= cs.take(k).push(cs[k]));
    assert forall|p: (Seq<Seq<char>>, Seq<char>)| #[trigger] cs.take(k + 1).contains(p) implies cs
        .take(k).contains(p) || p == cs[k] by {
        let idx = choose|idx: int| 0 <= idx < cs.take(k + 1).len() && #[trigger] cs.take(k + 1)[idx] == p;
        if idx < k {
            assert(cs.take(k)[idx] == p);
        }
    }
    assert forall|p: (Seq<Seq<char>>, Seq<char>)| cs.take(k).contains(p) implies cs.take(
        k + 1,
    ).contains(p) by {
        let idx = choose|idx: int| 0 <= idx < cs.take(k).len() && #[trigger] cs.take(k)[idx] == p;
        assert(cs.take(k + 1)[idx] == p);
    }
    assert(cs.take(k + 1)[k] == cs[k]);
    assert(cs.take(k + 1).contains(cs[k]));
    assert forall|w: Seq<char>| a.contains_key(w) implies #[trigger] b.contains_key(w) by {}
    assert forall|w: Seq<char>| b.contains_key(w) implies #[trigger] a.contains_key(w) by {}
    assert forall|w: Seq<char>| #[trigger] a.contains_key(w) implies a[w] =~= b[w] by {
        let dk1 = Set::new(
            |d: Seq<char>|
                exists|p: (Seq<Seq<char>>, Seq<char>)|
                    #[trigger] cs.take(k + 1).contains(p) && p.1 == d && p.0.contains(w),
        );
        let dk = Set::new(
            |d: Seq<char>|
                exists|p: (Seq<Seq<char>>, Seq<char>)|
                    #[trigger] cs.take(k).contains(p) && p.1 == d && p.0.contains(w),
        );
        assert(a[w] == set_at(m, w).union(dk1));
        assert forall|d: Seq<char>| #[trigger] dk1.contains(d) implies dk.contains(d) || (d
            == cs[k].1 && cs[k].0.contains(w)) by {
            let p = choose|p: (Seq<Seq<char>>, Seq<char>)|
                #[trigger] cs.take(k + 1).contains(p) && p.1 == d && p.0.contains(w);
            if cs.take(k).contains(p) {
            } else {
                assert(p == cs[k]);
            }
        }
        assert forall|d: Seq<char>| #[trigger] dk.contains(d) implies dk1.contains(d) by {
            let p = choose|p: (Seq<Seq<char>>, Seq<char>)|
                #[trigger] cs.take(k).contains(p) && p.1 == d && p.0.contains(w);
            assert(cs.take(k + 1).contains(p) && p.1 == d && p.0.contains(w));
        }
        if cs[k].0.contains(w) {
            assert(cs.take(k + 1).contains(cs[k]) && cs[k].1 == cs[k].1 && cs[k].0.contains(w));
            assert(dk1.contains(cs[k].1));
            if mk.contains_key(w) {
                assert(mk[w] == set_at(m, w).union(dk));
                assert(b[w] == set_at(m, w).union(dk).insert(cs[k].1));
                assert(a[w] =~= b[w]);
            } else {
                assert(!m.contains_key(w));
                assert forall|d: Seq<char>| !(#[trigger] dk.contains(d)) by {
                    if dk.contains(d) {
                        let p = choose|p: (Seq<Seq<char>>, Seq<char>)|
                            #[trigger] cs.take(k).contains(p) && p.1 == d && p.0.contains(w);
                        assert(mk.contains_key(w));
                    }
                }
                assert(b[w] == Set::<Seq<char>>::empty().insert(cs[k].1));
                assert forall|d: Seq<char>| #[trigger] dk1.contains(d) implies d == cs[k].1 by {}
                assert(a[w] =~= b[w]);
            }
        } else {
            assert(mk.contains_key(w));
            assert(b[w] == mk[w]);
            assert(mk[w] == set_at(m, w).union(dk));
            assert forall|d: Seq<char>| #[trigger] dk1.contains(d) implies dk.contains(d) by {}
            assert(a[w] =~= b[w]);
        }
    }
    assert(a =~~= b);
}

/// Build equivalence: two builds that merge the same contributions, in any
/// order and from any worker count, yield exactly the same index.
pub proof fn lemma_merge_order_independent(
    m: Map<Seq<char>, Set<Seq<char>>>,
    cs1: Seq<(Seq<Seq<char>>, Seq<char>)>,
    cs2: Seq<(Seq<Seq<char>>, Seq<char>)>,
)
    requires
        cs1.to_multiset() == cs2.to_multiset(),
    ensures
        merged_all(m, cs1) == merged_all(m, cs2),
{
    assert forall|p: (Seq<Seq<char>>, Seq<char>)| #[trigger] cs1.contains(p) implies cs2.contains(
        p,
    ) by {
        cs1.to_multiset_ensures();
        cs2.to_multiset_ensures();
        assert(cs1.to_multiset().count(p) > 0);
    }
    assert forall|p: (Seq<Seq<char>>, Seq<char>)| #[trigger] cs2.contains(p) implies cs1.contains(
        p,
    ) by {
        cs1.to_multiset_ensures();
        cs2.to_multiset_ensures();
        assert(cs2.to_multiset().count(p) > 0);
    }
    assert forall|w: Seq<char>|
        #[trigger] merged_all(m, cs1).contains_key(w) <==> merged_all(m, cs2).contains_key(w) by {}
    assert forall|w: Seq<char>| #[trigger] merged_all(m, cs1).contains_key(w) implies merged_all(
        m,
        cs1,
    )[w] =~= merged_all(m, cs2)[w] by {}
    assert(merged_all(m, cs1) =~~= merged_all(m, cs2));
}

/// Set semantics: merging the same document's word set twice leaves the index
/// exactly as merging it once does.
pub proof fn lemma_merge_idempotent(
    m: Map<Seq<char>, Set<Seq<char>>>,
    words: Seq<Seq<char>>,
    doc: Seq<char>,
)
    ensures
        merged_with(merged_with(m, words, doc), words, doc) == merged_with(m, words, doc),
{
    let a = merged_with(m, words, doc);
    let b = merged_with(a, words, doc);
    assert forall|w: Seq<char>| #[trigger] b.contains_key(w) implies a.contains_key(w)
        && b[w] =~= a[w] by {
        if words.contains(w) {
            assert(b[w] == set_at(a, w).insert(doc));
            assert(a[w] == set_at(m, w).insert(doc));
            assert(set_at(a, w) == a[w]);
            assert(set_at(m, w).insert(doc).insert(doc) =~= set_at(m, w).insert(doc));
        }
    }
    assert(b =~~= a);
}

/// The index after one document with word set `words` is merged in.
pub open spec fn merged_with_set(
    m: Map<Seq<char>, Set<Seq<char>>>,
    words: Set<Seq<char>>,
    doc: Seq<char>,
) -> Map<Seq<char>, Set<Seq<char>>> {
    Map::new(
        |w: Seq<char>| m.contains_key(w) || words.contains(w),
        |w: Seq<char>|
            if words.contains(w) {
                set_at(m, w).insert(doc)
            } else {
                m[w]
            },
    )
}

/// Merging a word sequence touches the index only through the set of its
/// words.
pub proof fn lemma_merged_with_is_set_merge(
    m: Map<Seq<char>, Set<Seq<char>>>,
    words: Seq<Seq<char>>,
    doc: Seq<char>,
)
    ensures
        merged_with(m, words, doc) == merged_with_set(m, words.to_set(), doc),
{
    assert(merged_with(m, words, doc) =~~= merged_with_set(m, words.to_set(), doc));
}

/// Whether the first sequence's strings all occur among the second's.
fn docs_subset(a: &Vec<String>, b: &Vec<String>) -> (r: bool)
    ensures
        r == forall|d: Seq<char>|
            views_of(a@).contains(d) ==> #[trigger] views_of(b@).contains(d),
{
    let n = a.len();
    let mut i: usize = 0;
    while i < n
        invariant
            i <= n,
            n == a@.len(),
            forall|k: int| 0 <= k < i ==> views_of(b@).contains(#[trigger] views_of(a@)[k]),
        decreases n - i,
    {
        if !contains_str(b, a[i].as_str()) {
            proof {
                assert(views_of(a@).contains(views_of(a@)[i as int]));
            }
            return false;
        }
        i += 1;
    }
    proof {
        assert forall|d: Seq<char>| views_of(a@).contains(d) implies #[trigger] views_of(
            b@,
        ).contains(d) by {
            let k = choose|k: int| 0 <= k < views_of(a@).len() && views_of(a@)[k] == d;
        }
    }
    true
}

/// The position of the entry holding `word`, if one occurs.
fn entry_index(es: &Vec<(String, Vec<String>)>, word: &str) -> (r: Option<usize>)
    ensures
        match r {
            Some(i) => i < es@.len() && es@[i as int].0@ == word@,
            None => forall|j: int| 0 <= j < es@.len() ==> (#[trigger] es@[j].0@) != word@,
        },
{
    let n = es.len();
    let mut i: usize = 0;
    while i < n
        invariant
            i <= n,
            n == es@.len(),
            forall|j: int| 0 <= j < i ==> (#[trigger] es@[j].0@) != word@,
        decreases n - i,
    {
        if str_eq(es[i].0.as_str(), word) {
            return Some(i);
        }
        i += 1;
    }
    None
}

impl PartialEq for InvertedIndex {
    /// Two indexes are equal when they map the same words to the same
    /// document sets, whatever order their entries sit in.
    fn eq(&self, other: &InvertedIndex) -> (r: bool) {
        proof {
            use_type_invariant(self);
            use_type_invariant(other);
        }
        let n = self.entries.len();
        let mut i: usize = 0;
        while i < n
            invariant
                i <= n,
                n == self.entries@.len(),
                self.wf(),
                other.wf(),
                forall|j: int|
                    0 <= j < i ==> other@.contains_key(#[trigger] self.entries@[j].0@)
                        && other@[self.entries@[j].0@] == self@[self.entries@[j].0@],
            decreases n - i,
        {
            proof {
                lemma_entries_view_at(self.entries@, i as int);
            }
            match entry_index(&other.entries, self.entries[i].0.as_str()) {
                None => {
                    proof {
                        assert(!has_entry(other.entries@, self.entries@[i as int].0@));
                        assert(self@.contains_key(self.entries@[i as int].0@));
                        assert(!other@.contains_key(self.entries@[i as int].0@));
                    }
                    return false;
                },
                Some(j) => {
                    proof {
                        lemma_entries_view_at(other.entries@, j as int);
                    }
                    let fwd = docs_subset(&self.entries[i].1, &other.entries[j].1);
                    let bwd = docs_subset(&other.entries[j].1, &self.entries[i].1);
                    if !fwd || !bwd {
                        proof {
                            let w = self.entries@[i as int].0@;
                            assert(self@[w] == views_of(self.entries@[i as int].1@).to_set());
                            assert(other@[w] == views_of(other.entries@[j as int].1@).to_set());
                            if self@ == other@ {
                                assert(self@[w] == other@[w]);
                                assert forall|d: Seq<char>|
                                    views_of(self.entries@[i as int].1@).contains(d)
                                        implies #[trigger] views_of(
                                    other.entries@[j as int].1@,
                                ).contains(d) by {
                                    assert(self@[w].contains(d));
                                }
                                assert forall|d: Seq<char>|
                                    views_of(other.entries@[j as int].1@).contains(d)
                                        implies #[trigger] views_of(
                                    self.entries@[i as int].1@,
                                ).contains(d) by {
                                    assert(other@[w].contains(d));
                                }
                                assert(false);
                            }
                        }
                        return false;
                    }
                    proof {
                        let w = self.entries@[i as int].0@;
                        assert(self@[w] =~= other@[w]);
                    }
                },
            }
            i += 1;
        }
        let m = other.entries.len();
        let mut k: usize = 0;
        while k < m
            invariant
                k <= m,
                m == other.entries@.len(),
                self.wf(),
                other.wf(),
                forall|j: int|
                    0 <= j < self.entries@.len() ==> other@.contains_key(
                        #[trigger] self.entries@[j].0@,
                    ) && other@[self.entries@[j].0@] == self@[self.entries@[j].0@],
                forall|j: int|
                    0 <= j < k ==> self@.contains_key(#[trigger] other.entries@[j].0@),
            decreases m - k,
        {
            proof {
                lemma_entries_view_at(other.entries@, k as int);
            }
            match entry_index(&self.entries, other.entries[k].0.as_str()) {
                None => {
                    proof {
                        assert(!has_entry(self.entries@, other.entries@[k as int].0@));
                        assert(other@.contains_key(other.entries@[k as int].0@));
                        assert(!self@.contains_key(other.entries@[k as int].0@));
                    }
                    return false;
                },
                Some(j) => {
                    proof {
                        lemma_entries_view_at(self.entries@, j as int);
                    }
                },
            }
            k += 1;
        }
        proof {
            assert forall|w: Seq<char>| #[trigger] self@.contains_key(w) implies other@.contains_key(
                w,
            ) && self@[w] == other@[w] by {
                let j = choose|j: int|
                    0 <= j < self.entries@.len() && (#[trigger] self.entries@[j].0@) == w;
            }
            assert forall|w: Seq<char>| #[trigger] other@.contains_key(w) implies self@.contains_key(
                w,
            ) by {
                let j = choose|j: int|
                    0 <= j < other.entries@.len() && (#[trigger] other.entries@[j].0@) == w;
            }
            assert(self@ =~~= other@);
        }
        true
    }
}

impl vstd::std_specs::cmp::PartialEqSpecImpl for InvertedIndex {
    open spec fn obeys_eq_spec() -> bool {
        true
    }

    open spec fn eq_spec(&self, other: &InvertedIndex) -> bool {
        self@ == other@
    }
}

/// A sequential build is the order-free merge: merging one more contribution
/// after the rest equals the order-free merge of them all. Folding this step
/// over any arrival order, from either build strategy, therefore yields
/// `merged_all` of the contributions.
pub proof fn lemma_merge_one_more(
    m: Map<Seq<char>, Set<Seq<char>>>,
    cs: Seq<(Seq<Seq<char>>, Seq<char>)>,
    p: (Seq<Seq<char>>, Seq<char>),
)
    ensures
        merged_all(m, cs.push(p)) == merged_with(merged_all(m, cs), p.0, p.1),
{
    let whole = cs.push(p);
    assert(whole.take(cs.len() as int) =~= cs);
    assert(whole.take(cs.len() as int + 1) =~= whole);
    lemma_merged_all_step(m, whole, cs.len() as int);
}

/// Set semantics at the document level: indexing the same document's word
/// set twice leaves the index exactly as indexing it once does.
pub proof fn lemma_merge_set_idempotent(
    m: Map<Seq<char>, Set<Seq<char>>>,
    words: Set<Seq<char>>,
    doc: Seq<char>,
)
    ensures
        merged_with_set(merged_with_set(m, words, doc), words, doc) == merged_with_set(
            m,
            words,
            doc,
        ),
{
    let a = merged_with_set(m, words, doc);
    let b = merged_with_set(a, words, doc);
    assert forall|w: Seq<char>| #[trigger] b.contains_key(w) implies a.contains_key(w)
        && b[w] =~= a[w] by {
        if words.contains(w) {
            assert(b[w] == set_at(a, w).insert(doc));
            assert(a[w] == set_at(m, w).insert(doc));
            assert(set_at(a, w) == a[w]);
            assert(set_at(m, w).insert(doc).insert(doc) =~= set_at(m, w).insert(doc));
        }
    }
    assert(b =~~= a);
}

impl InvertedIndex {
    /// Tokenizes one document's text and merges its word set into the index:
    /// the compute half of indexing one file, fed the text by whoever read it.
    /// A document that could not be read merges as empty text, which leaves
    /// the index unchanged aside from no words at all.
    pub fn index_document(&mut self, text: &str, doc: &String)
        ensures
            final(self)@ == merged_with_set(old(self)@, tokens_of(text@), doc@),
    {
        let ghost m0 = self@;
        let words = tokenize(text);
        self.insert_words(&words, doc);
        proof {
            lemma_merged_with_is_set_merge(m0, views_of(words@), doc@);
        }
    }
}

} // verus!
