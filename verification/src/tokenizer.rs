use vstd::prelude::*;
use crate::inverted_index::contains_str;
use crate::text::{
    chars_of, is_alnum, is_alphanumeric_char, is_whitespace_char, is_ws, lower_of, lowercase,
    string_from_chars, views_of,
};

verus! {

broadcast use vstd::seq_lib::group_seq_properties;

/// The predicate that keeps a word's alphanumeric characters.
pub open spec fn alnum_pred() -> spec_fn(char) -> bool {
    |c: char| is_alphanumeric_char(c)
}

/// The alphanumeric characters of a word, in order.
pub open spec fn filter_alnum(s: Seq<char>) -> Seq<char> {
    s.filter(alnum_pred())
}

/// A maximal whitespace-free run `[a, b)` of the text `t`.
pub open spec fn is_word_run(t: Seq<char>, a: int, b: int) -> bool {
    &&& 0 <= a < b <= t.len()
    &&& (a == 0 || is_whitespace_char(t[a - 1]))
    &&& (b == t.len() || is_whitespace_char(t[b]))
    &&& forall|k: int| a <= k < b ==> !is_whitespace_char(#[trigger] t[k])
}

/// The normalized token a run carries: its alphanumeric characters, lowercased.
pub open spec fn run_token(t: Seq<char>, a: int, b: int) -> Seq<char> {
    lower_of(filter_alnum(t.subrange(a, b)))
}

/// The word set of a text: one token for every maximal whitespace-free run
/// that keeps at least one alphanumeric character.
pub open spec fn tokens_of(t: Seq<char>) -> Set<Seq<char>> {
    Set::new(
        |w: Seq<char>|
            exists|a: int, b: int|
                #[trigger] is_word_run(t, a, b) && filter_alnum(t.subrange(a, b)).len() > 0 && w
                    == run_token(t, a, b),
    )
}

/// The tokens of every run that ends strictly before position `n`.
spec fn tokens_closed_before(t: Seq<char>, n: int) -> Set<Seq<char>> {
    Set::new(
        |w: Seq<char>|
            exists|a: int, b: int|
                #[trigger] is_word_run(t, a, b) && b < n && filter_alnum(t.subrange(a, b)).len()
                    > 0 && w == run_token(t, a, b),
    )
}

/// Two runs that end at the same position start at the same position.
proof fn lemma_run_unique(t: Seq<char>, a1: int, b: int, a2: int)
    requires
        is_word_run(t, a1, b),
        is_word_run(t, a2, b),
    ensures
        a1 == a2,
{
    if a1 < a2 {
        assert(!is_whitespace_char(t[a2 - 1]));
    }
    if a2 < a1 {
        assert(!is_whitespace_char(t[a1 - 1]));
    }
}

/// No run ends where the preceding character is whitespace (or at position 0).
proof fn lemma_no_run_ending(t: Seq<char>, b: int)
    requires
        0 <= b <= t.len(),
        b == 0 || is_whitespace_char(t[b - 1]),
    ensures
        forall|a: int| !is_word_run(t, a, b),
{
    assert forall|a: int| !is_word_run(t, a, b) by {
        if is_word_run(t, a, b) {
            assert(!is_whitespace_char(t[b - 1]));
        }
    }
}

/// No run ends just before a non-whitespace character.
proof fn lemma_no_run_ending_at_nonws(t: Seq<char>, b: int)
    requires
        0 <= b < t.len(),
        !is_whitespace_char(t[b]),
    ensures
        forall|a: int| !is_word_run(t, a, b),
{
    assert forall|a: int| !is_word_run(t, a, b) by {
        if is_word_run(t, a, b) {
            assert(is_whitespace_char(t[b]));
        }
    }
}

/// Where no run ends at `i`, stepping past `i` closes no new token.
proof fn lemma_closed_unchanged(t: Seq<char>, i: int)
    requires
        0 <= i <= t.len(),
        forall|a: int| !is_word_run(t, a, i),
    ensures
        tokens_closed_before(t, i + 1) == tokens_closed_before(t, i),
{
    assert forall|w: Seq<char>| #[trigger] tokens_closed_before(t, i + 1).contains(w) implies
        tokens_closed_before(t, i).contains(w) by {
        let (a, b) = choose|a: int, b: int|
            #[trigger] is_word_run(t, a, b) && b < i + 1 && filter_alnum(t.subrange(a, b)).len()
                > 0 && w == run_token(t, a, b);
        assert(b != i);
        assert(is_word_run(t, a, b) && b < i && filter_alnum(t.subrange(a, b)).len() > 0 && w
            == run_token(t, a, b));
    }
    assert forall|w: Seq<char>| #[trigger] tokens_closed_before(t, i).contains(w) implies
        tokens_closed_before(t, i + 1).contains(w) by {
        let (a, b) = choose|a: int, b: int|
            #[trigger] is_word_run(t, a, b) && b < i && filter_alnum(t.subrange(a, b)).len() > 0
                && w == run_token(t, a, b);
        assert(is_word_run(t, a, b) && b < i + 1 && filter_alnum(t.subrange(a, b)).len() > 0 && w
            == run_token(t, a, b));
    }
    assert(tokens_closed_before(t, i + 1) =~= tokens_closed_before(t, i));
}

/// Stepping past the end of the run `[s, i)` closes exactly that run's token,
/// or nothing where the run keeps no alphanumeric character.
proof fn lemma_closed_add_run(t: Seq<char>, s: int, i: int)
    requires
        is_word_run(t, s, i),
    ensures
        filter_alnum(t.subrange(s, i)).len() > 0 ==> tokens_closed_before(t, i + 1)
            == tokens_closed_before(t, i).insert(run_token(t, s, i)),
        filter_alnum(t.subrange(s, i)).len() == 0 ==> tokens_closed_before(t, i + 1)
            == tokens_closed_before(t, i),
{
    assert forall|w: Seq<char>| #[trigger] tokens_closed_before(t, i + 1).contains(w) implies
        tokens_closed_before(t, i).contains(w) || (filter_alnum(t.subrange(s, i)).len() > 0 && w
        == run_token(t, s, i)) by {
        let (a, b) = choose|a: int, b: int|
            #[trigger] is_word_run(t, a, b) && b < i + 1 && filter_alnum(t.subrange(a, b)).len()
                > 0 && w == run_token(t, a, b);
        if b == i {
            lemma_run_unique(t, a, i, s);
        } else {
            assert(is_word_run(t, a, b) && b < i && filter_alnum(t.subrange(a, b)).len() > 0 && w
                == run_token(t, a, b));
        }
    }
    assert forall|w: Seq<char>| #[trigger] tokens_closed_before(t, i).contains(w) implies
        tokens_closed_before(t, i + 1).contains(w) by {
        let (a, b) = choose|a: int, b: int|
            #[trigger] is_word_run(t, a, b) && b < i && filter_alnum(t.subrange(a, b)).len() > 0
                && w == run_token(t, a, b);
        assert(is_word_run(t, a, b) && b < i + 1 && filter_alnum(t.subrange(a, b)).len() > 0 && w
            == run_token(t, a, b));
    }
    if filter_alnum(t.subrange(s, i)).len() > 0 {
        assert(tokens_closed_before(t, i + 1).contains(run_token(t, s, i))) by {
            assert(is_word_run(t, s, i) && i < i + 1 && filter_alnum(t.subrange(s, i)).len() > 0);
        }
        assert(tokens_closed_before(t, i + 1) =~= tokens_closed_before(t, i).insert(
            run_token(t, s, i),
        ));
    } else {
        assert(tokens_closed_before(t, i + 1) =~= tokens_closed_before(t, i));
    }
}

/// The tokens of a text are the tokens of all its runs.
proof fn lemma_tokens_full(t: Seq<char>)
    ensures
        tokens_of(t) == tokens_closed_before(t, t.len() as int + 1),
{
    assert forall|w: Seq<char>| #[trigger] tokens_of(t).contains(w) implies tokens_closed_before(
        t,
        t.len() as int + 1,
    ).contains(w) by {
        let (a, b) = choose|a: int, b: int|
            #[trigger] is_word_run(t, a, b) && filter_alnum(t.subrange(a, b)).len() > 0 && w
                == run_token(t, a, b);
        assert(is_word_run(t, a, b) && b < t.len() as int + 1 && filter_alnum(t.subrange(a, b)).len() > 0
            && w == run_token(t, a, b));
    }
    assert forall|w: Seq<char>| #[trigger] tokens_closed_before(t, t.len() as int + 1).contains(w) implies
        tokens_of(t).contains(w) by {
        let (a, b) = choose|a: int, b: int|
            #[trigger] is_word_run(t, a, b) && b < t.len() as int + 1 && filter_alnum(
                t.subrange(a, b),
            ).len() > 0 && w == run_token(t, a, b);
        assert(is_word_run(t, a, b) && filter_alnum(t.subrange(a, b)).len() > 0 && w == run_token(
            t,
            a,
            b,
        ));
    }
    assert(tokens_of(t) =~= tokens_closed_before(t, t.len() as int + 1));
}

/// Adds the lowercased current word to the result set, keeping the words
/// distinct and nonempty.
fn push_token(result: &mut Vec<String>, cur: &Vec<char>)
    requires
        cur@.len() > 0,
        views_of(old(result)@).no_duplicates(),
        forall|j: int| 0 <= j < old(result)@.len() ==> (#[trigger] views_of(old(result)@)[j]).len()
            > 0,
    ensures
        views_of(final(result)@).to_set() == views_of(old(result)@).to_set().insert(lower_of(cur@)),
        views_of(final(result)@).no_duplicates(),
        forall|j: int| 0 <= j < final(result)@.len() ==> (#[trigger] views_of(
            final(result)@,
        )[j]).len() > 0,
{
    let s = string_from_chars(cur);
    let w = lowercase(s.as_str());
    if !contains_str(result, w.as_str()) {
        let ghost r0 = result@;
        let ghost wv = w@;
        result.push(w);
        proof {
            assert(views_of(result@) =~= views_of(r0).push(wv));
            views_of(r0).lemma_push_to_set_commute(wv);
            assert forall|p: int, q: int|
                0 <= p < q < views_of(result@).len() implies views_of(result@)[p] != views_of(
                result@,
            )[q] by {
                if q == r0.len() {
                    assert(views_of(r0).contains(views_of(r0)[p]));
                }
            }
        }
    } else {
        proof {
            assert(views_of(result@).to_set().insert(w@) =~= views_of(result@).to_set());
        }
    }
}

/// Splits a text into its distinct normalized words: each maximal
/// whitespace-free run is reduced to its alphanumeric characters and
/// lowercased; words that keep no character are dropped, duplicates collapse.
pub fn tokenize(text: &str) -> (r: Vec<String>)
    ensures
        views_of(r@).to_set() == tokens_of(text@),
        views_of(r@).no_duplicates(),
        forall|j: int| 0 <= j < r@.len() ==> (#[trigger] views_of(r@)[j]).len() > 0,
{
    let t = chars_of(text);
    let n = t.len();
    let mut result: Vec<String> = Vec::new();
    let mut cur: Vec<char> = Vec::new();
    let ghost mut start: int = 0;
    let mut i: usize = 0;
    proof {
        assert(Seq::<char>::empty().filter(alnum_pred()).len() == 0) by {
            Seq::<char>::empty().lemma_filter_len(alnum_pred());
        }
        assert forall|w: Seq<char>| !(#[trigger] tokens_closed_before(t@, 0).contains(w)) by {
            if tokens_closed_before(t@, 0).contains(w) {
                let (a, b) = choose|a: int, b: int|
                    #[trigger] is_word_run(t@, a, b) && b < 0 && filter_alnum(
                        t@.subrange(a, b),
                    ).len() > 0 && w == run_token(t@, a, b);
            }
        }
        assert(views_of(result@).to_set() =~= tokens_closed_before(t@, 0));
    }
    while i < n
        invariant
            t@ == text@,
            n == t@.len(),
            0 <= i <= n,
            (i > 0 && !is_whitespace_char(t@[i as int - 1])) ==> {
                &&& 0 <= start < i
                &&& (start == 0 || is_whitespace_char(t@[start - 1]))
                &&& (forall|k: int| start <= k < i ==> !is_whitespace_char(#[trigger] t@[k]))
                &&& cur@ == filter_alnum(t@.subrange(start, i as int))
            },
            (i == 0 || is_whitespace_char(t@[i as int - 1])) ==> cur@.len() == 0,
            views_of(result@).to_set() == tokens_closed_before(t@, i as int),
            views_of(result@).no_duplicates(),
            forall|j: int| 0 <= j < result@.len() ==> (#[trigger] views_of(result@)[j]).len() > 0,
        decreases n - i,
    {
        let c = t[i];
        let ghost in_run = i > 0 && !is_whitespace_char(t@[i as int - 1]);
        if is_ws(c) {
            if cur.len() > 0 {
                proof {
                    assert(in_run);
                    assert(is_word_run(t@, start, i as int));
                }
                push_token(&mut result, &cur);
                proof {
                    lemma_closed_add_run(t@, start, i as int);
                    assert(lower_of(cur@) == run_token(t@, start, i as int));
                }
                cur = Vec::new();
            } else {
                proof {
                    if in_run {
                        assert(is_word_run(t@, start, i as int));
                        lemma_closed_add_run(t@, start, i as int);
                    } else {
                        lemma_no_run_ending(t@, i as int);
                        lemma_closed_unchanged(t@, i as int);
                    }
                }
            }
        } else {
            proof {
                if !in_run {
                    start = i as int;
                    assert(t@.subrange(start, i as int) =~= Seq::<char>::empty());
                    assert(cur@ == filter_alnum(t@.subrange(start, i as int)));
                }
                lemma_no_run_ending_at_nonws(t@, i as int);
                lemma_closed_unchanged(t@, i as int);
            }
            let ghost cur0 = cur@;
            if is_alnum(c) {
                cur.push(c);
            }
            proof {
                assert(t@.subrange(start, i as int + 1) =~= t@.subrange(start, i as int).push(
                    t@[i as int],
                ));
                t@.subrange(start, i as int).lemma_filter_push(t@[i as int], alnum_pred());
                assert(cur@ == filter_alnum(t@.subrange(start, i as int + 1)));
            }
        }
        i += 1;
    }
    if cur.len() > 0 {
        proof {
            assert(i > 0 && !is_whitespace_char(t@[i as int - 1]));
            assert(is_word_run(t@, start, n as int));
        }
        push_token(&mut result, &cur);
        proof {
            lemma_closed_add_run(t@, start, n as int);
            assert(lower_of(cur@) == run_token(t@, start, n as int));
        }
    } else {
        proof {
            if i > 0 && !is_whitespace_char(t@[i as int - 1]) {
                assert(is_word_run(t@, start, n as int));
                lemma_closed_add_run(t@, start, n as int);
            } else {
                lemma_no_run_ending(t@, n as int);
                lemma_closed_unchanged(t@, n as int);
            }
        }
    }
    proof {
        lemma_tokens_full(t@);
    }
    result
}

} // verus!
