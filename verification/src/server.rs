use vstd::prelude::*;
use crate::inverted_index::InvertedIndex;
use crate::text::{byte_len, byte_len_of, chars_of, is_whitespace_char, is_ws, str_eq, string_from_chars, views_of};
use crate::tokenizer::is_word_run;

verus! {

broadcast use vstd::seq_lib::group_seq_properties;

/// The key/value pairs of a query string, percent- and form-decoded, ordered
/// by key, as the query-string decoder yields them; nothing where the string
/// does not parse.
pub uninterp spec fn qs_pairs_of(s: Seq<char>) -> Option<Seq<(Seq<char>, Seq<char>)>>;

/// The JSON array holding the given strings, in order.
pub uninterp spec fn json_array_of(items: Seq<Seq<char>>) -> Seq<char>;

/// Relies on serde_qs::from_str (into an ordered string-to-string map): the
/// decoded pairs are a function of the string alone; a map's keys are
/// distinct and come out in their fixed (sorted) order.
#[verifier::external_body]
fn parse_query_pairs(qs: &str) -> (r: Option<Vec<(String, String)>>)
    ensures
        match r {
            Some(v) => {
                &&& qs_pairs_of(qs@) == Some(v@.map_values(|p: (String, String)| (p.0@, p.1@)))
                &&& forall|i: int, j: int| 0 <= i < j < v@.len() ==> v@[i].0@ != v@[j].0@
            },
            None => qs_pairs_of(qs@) is None,
        },
{
    match serde_qs::from_str::<std::collections::BTreeMap<String, String>>(qs) {
        Ok(m) => Some(m.into_iter().collect()),
        Err(_) => None,
    }
}

/// Relies on serde_json::to_string: the JSON array of the given strings, a
/// function of the strings alone. Serializing strings cannot fail, so the
/// fallback arm is never taken.
#[verifier::external_body]
fn to_json_array(items: &Vec<String>) -> (r: String)
    ensures
        r@ == json_array_of(views_of(items@)),
{
    let refs: Vec<&str> = items.iter().map(|s| s.as_str()).collect();
    serde_json::to_string(&refs).unwrap_or_default()
}

/// The decimal digit character for `n`.
pub open spec fn dec_digit(n: int) -> char {
    if n == 0 {
        '0'
    } else if n == 1 {
        '1'
    } else if n == 2 {
        '2'
    } else if n == 3 {
        '3'
    } else if n == 4 {
        '4'
    } else if n == 5 {
        '5'
    } else if n == 6 {
        '6'
    } else if n == 7 {
        '7'
    } else if n == 8 {
        '8'
    } else {
        '9'
    }
}

/// The decimal representation of `n`, most significant digit first.
pub open spec fn dec_rep(n: nat) -> Seq<char>
    decreases n,
{
    if n < 10 {
        seq![dec_digit(n as int)]
    } else {
        dec_rep(n / 10) + seq![dec_digit((n % 10) as int)]
    }
}

fn digit_char(n: usize) -> (c: char)
    requires
        n < 10,
    ensures
        c == dec_digit(n as int),
{
    if n == 0 {
        '0'
    } else if n == 1 {
        '1'
    } else if n == 2 {
        '2'
    } else if n == 3 {
        '3'
    } else if n == 4 {
        '4'
    } else if n == 5 {
        '5'
    } else if n == 6 {
        '6'
    } else if n == 7 {
        '7'
    } else if n == 8 {
        '8'
    } else {
        '9'
    }
}

/// Writes `n` in decimal, most significant digit first.
fn dec_chars(n: usize) -> (r: Vec<char>)
    ensures
        r@ == dec_rep(n as nat),
    decreases n,
{
    if n < 10 {
        let mut v: Vec<char> = Vec::new();
        v.push(digit_char(n));
        proof {
            assert(v@ =~= seq![dec_digit(n as int)]);
        }
        v
    } else {
        let mut v = dec_chars(n / 10);
        v.push(digit_char(n % 10));
        proof {
            assert(v@ =~= dec_rep((n / 10) as nat) + seq![dec_digit((n % 10) as int)]);
        }
        v
    }
}

/// The status lines of the protocol: each response is one of these, the
/// successful search response carrying a body after its headers.
pub open spec fn status_ok() -> Seq<char> {
    "HTTP/1.1 200 OK"@
}

pub open spec fn status_bad_request() -> Seq<char> {
    "HTTP/1.1 400 BAD REQUEST"@
}

pub open spec fn status_not_found() -> Seq<char> {
    "HTTP/1.1 404 NOT FOUND"@
}

/// The full successful search response: status line, the body's byte length
/// as its content length, a blank line, then the body.
pub open spec fn ok_with_body(body: Seq<char>) -> Seq<char> {
    "HTTP/1.1 200 OK\r\nContent-Length: "@ + dec_rep(byte_len_of(body)) + "\r\n\r\n"@ + body
}

fn ok_response() -> (r: String)
    ensures
        r@ == status_ok(),
{
    ("HTTP/1.1 200 OK").to_owned()
}

fn bad_request_response() -> (r: String)
    ensures
        r@ == status_bad_request(),
{
    ("HTTP/1.1 400 BAD REQUEST").to_owned()
}

fn not_found_response() -> (r: String)
    ensures
        r@ == status_not_found(),
{
    ("HTTP/1.1 404 NOT FOUND").to_owned()
}

/// Whether the line opens with the request method the server accepts.
pub open spec fn is_get_line(line: Seq<char>) -> bool {
    line.len() >= 3 && line.subrange(0, 3) == "GET"@
}

/// The first whitespace-separated token of `t` is `[a, b)`.
pub open spec fn is_first_token(t: Seq<char>, a: int, b: int) -> bool {
    &&& is_word_run(t, a, b)
    &&& forall|k: int| 0 <= k < a ==> is_whitespace_char(#[trigger] t[k])
}

/// The second whitespace-separated token of `t` is `[a, b)`.
pub open spec fn is_second_token(t: Seq<char>, a: int, b: int) -> bool {
    exists|a1: int, b1: int|
        {
            &&& #[trigger] is_first_token(t, a1, b1)
            &&& b1 < a
            &&& (forall|k: int| b1 <= k < a ==> is_whitespace_char(#[trigger] t[k]))
            &&& is_word_run(t, a, b)
        }
}

/// Whether the request line carries a path: a second token after the method.
pub open spec fn has_path(line: Seq<char>) -> bool {
    exists|a: int, b: int| #[trigger] is_second_token(line, a, b)
}

/// The request path: the line's second whitespace-separated token.
pub open spec fn path_of_line(line: Seq<char>) -> Seq<char> {
    let (a, b) = choose|a: int, b: int| #[trigger] is_second_token(line, a, b);
    line.subrange(a, b)
}

pub open spec fn sleep_path() -> Seq<char> {
    "/sleep"@
}

/// Whether the path opens with the search route's prefix.
pub open spec fn is_search_path(p: Seq<char>) -> bool {
    p.len() >= 7 && p.subrange(0, 7) == "/search"@
}

/// Position `i` holds the path's first question mark.
pub open spec fn is_first_qmark(p: Seq<char>, i: int) -> bool {
    0 <= i < p.len() && p[i] == '?' && (forall|k: int| 0 <= k < i ==> #[trigger] p[k] != '?')
}

/// Whether the path carries a query string.
pub open spec fn has_qs(p: Seq<char>) -> bool {
    exists|i: int| #[trigger] is_first_qmark(p, i)
}

/// The query string: everything after the path's first question mark.
pub open spec fn qs_of(p: Seq<char>) -> Seq<char> {
    let i = choose|i: int| #[trigger] is_first_qmark(p, i);
    p.subrange(i + 1, p.len() as int)
}

/// The value of the `query` field among decoded pairs, if one occurs.
pub open spec fn query_of_pairs(ps: Seq<(Seq<char>, Seq<char>)>) -> Option<Seq<char>> {
    if exists|i: int| 0 <= i < ps.len() && (#[trigger] ps[i]).0 == "query"@ {
        Some(ps[choose|i: int| 0 <= i < ps.len() && (#[trigger] ps[i]).0 == "query"@].1)
    } else {
        None
    }
}

/// The `query` field of a query string, if the string decodes and has one.
pub open spec fn query_of(qs: Seq<char>) -> Option<Seq<char>> {
    match qs_pairs_of(qs) {
        Option::None => Option::None,
        Option::Some(ps) => query_of_pairs(ps),
    }
}

proof fn lemma_first_token_unique(t: Seq<char>, a1: int, b1: int, a2: int, b2: int)
    requires
        is_first_token(t, a1, b1),
        is_first_token(t, a2, b2),
    ensures
        a1 == a2,
        b1 == b2,
{
    if a1 < a2 {
        assert(is_whitespace_char(t[a1]));
        assert(!is_whitespace_char(t[a1]));
    }
    if a2 < a1 {
        assert(is_whitespace_char(t[a2]));
        assert(!is_whitespace_char(t[a2]));
    }
    if b1 < b2 {
        assert(is_whitespace_char(t[b1]));
        assert(!is_whitespace_char(t[b1]));
    }
    if b2 < b1 {
        assert(is_whitespace_char(t[b2]));
        assert(!is_whitespace_char(t[b2]));
    }
}

proof fn lemma_second_token_unique(t: Seq<char>, a1: int, b1: int, a2: int, b2: int)
    requires
        is_second_token(t, a1, b1),
        is_second_token(t, a2, b2),
    ensures
        a1 == a2,
        b1 == b2,
{
    let (x1, y1) = choose|x: int, y: int|
        {
            &&& #[trigger] is_first_token(t, x, y)
            &&& y < a1
            &&& (forall|k: int| y <= k < a1 ==> is_whitespace_char(#[trigger] t[k]))
            &&& is_word_run(t, a1, b1)
        };
    let (x2, y2) = choose|x: int, y: int|
        {
            &&& #[trigger] is_first_token(t, x, y)
            &&& y < a2
            &&& (forall|k: int| y <= k < a2 ==> is_whitespace_char(#[trigger] t[k]))
            &&& is_word_run(t, a2, b2)
        };
    lemma_first_token_unique(t, x1, y1, x2, y2);
    if a1 < a2 {
        assert(is_whitespace_char(t[a1]));
        assert(!is_whitespace_char(t[a1]));
    }
    if a2 < a1 {
        assert(is_whitespace_char(t[a2]));
        assert(!is_whitespace_char(t[a2]));
    }
    if b1 < b2 {
        assert(is_whitespace_char(t[b1]));
        assert(!is_whitespace_char(t[b1]));
    }
    if b2 < b1 {
        assert(is_whitespace_char(t[b2]));
        assert(!is_whitespace_char(t[b2]));
    }
}

proof fn lemma_first_qmark_unique(p: Seq<char>, i: int, j: int)
    requires
        is_first_qmark(p, i),
        is_first_qmark(p, j),
    ensures
        i == j,
{
    if i < j {
        assert(p[i] != '?');
    }
    if j < i {
        assert(p[j] != '?');
    }
}

/// First position at or after `from` whose character's whitespace class is
/// `want_ws`, or the length where there is none.
fn scan(t: &Vec<char>, from: usize, want_ws: bool) -> (r: usize)
    requires
        from <= t@.len(),
    ensures
        from <= r <= t@.len(),
        forall|k: int| from <= k < r ==> is_whitespace_char(#[trigger] t@[k]) != want_ws,
        r < t@.len() ==> is_whitespace_char(t@[r as int]) == want_ws,
{
    let n = t.len();
    let mut i = from;
    while i < n
        invariant
            from <= i <= n,
            n == t@.len(),
            forall|k: int| from <= k < i ==> is_whitespace_char(#[trigger] t@[k]) != want_ws,
        decreases n - i,
    {
        if is_ws(t[i]) == want_ws {
            return i;
        }
        i += 1;
    }
    i
}

/// Finds the line's second whitespace-separated token, if any.
fn second_token(t: &Vec<char>) -> (r: Option<(usize, usize)>)
    ensures
        match r {
            Some(p) => is_second_token(t@, p.0 as int, p.1 as int) && p.0 < p.1 <= t@.len(),
            None => !has_path(t@),
        },
{
    let n = t.len();
    let a1 = scan(t, 0, false);
    if a1 == n {
        proof {
            assert forall|a: int, b: int| !(#[trigger] is_second_token(t@, a, b)) by {
                if is_second_token(t@, a, b) {
                    assert(is_word_run(t@, a, b));
                    assert(!is_whitespace_char(t@[a]));
                }
            }
        }
        return None;
    }
    let b1 = scan(t, a1, true);
    let a2 = scan(t, b1, false);
    if a2 == n {
        proof {
            assert(is_first_token(t@, a1 as int, b1 as int));
            assert forall|a: int, b: int| !(#[trigger] is_second_token(t@, a, b)) by {
                if is_second_token(t@, a, b) {
                    let (x, y) = choose|x: int, y: int|
                        {
                            &&& #[trigger] is_first_token(t@, x, y)
                            &&& y < a
                            &&& (forall|k: int| y <= k < a ==> is_whitespace_char(#[trigger] t@[k]))
                            &&& is_word_run(t@, a, b)
                        };
                    lemma_first_token_unique(t@, x, y, a1 as int, b1 as int);
                    assert(b1 <= a < n);
                    assert(!is_whitespace_char(t@[a]));
                    assert(is_whitespace_char(t@[a]));
                }
            }
        }
        return None;
    }
    let b2 = scan(t, a2, true);
    proof {
        assert(is_first_token(t@, a1 as int, b1 as int));
        assert(is_word_run(t@, a2 as int, b2 as int));
        assert(is_second_token(t@, a2 as int, b2 as int));
    }
    Some((a2, b2))
}

/// Copies the characters `[a, b)` of `t`.
fn subvec(t: &Vec<char>, a: usize, b: usize) -> (r: Vec<char>)
    requires
        a <= b <= t@.len(),
    ensures
        r@ == t@.subrange(a as int, b as int),
{
    let mut r: Vec<char> = Vec::new();
    let mut i = a;
    while i < b
        invariant
            a <= i <= b <= t@.len(),
            r@ == t@.subrange(a as int, i as int),
        decreases b - i,
    {
        r.push(t[i]);
        proof {
            assert(r@ =~= t@.subrange(a as int, i as int + 1));
        }
        i += 1;
    }
    r
}

/// Whether two character vectors hold the same sequence.
fn chars_eq(a: &Vec<char>, b: &Vec<char>) -> (r: bool)
    ensures
        r == (a@ == b@),
{
    if a.len() != b.len() {
        proof {
            assert(a@ != b@);
        }
        return false;
    }
    let n = a.len();
    let mut i: usize = 0;
    while i < n
        invariant
            i <= n,
            n == a@.len() == b@.len(),
            forall|k: int| 0 <= k < i ==> a@[k] == b@[k],
        decreases n - i,
    {
        if a[i] != b[i] {
            return false;
        }
        i += 1;
    }
    proof {
        assert(a@ =~= b@);
    }
    true
}

/// Whether `a` opens with `p`.
fn chars_prefix(a: &Vec<char>, p: &Vec<char>) -> (r: bool)
    ensures
        r == (a@.len() >= p@.len() && a@.subrange(0, p@.len() as int) == p@),
{
    if a.len() < p.len() {
        return false;
    }
    let n = p.len();
    let mut i: usize = 0;
    while i < n
        invariant
            i <= n,
            n == p@.len() <= a@.len(),
            forall|k: int| 0 <= k < i ==> a@[k] == p@[k],
        decreases n - i,
    {
        if a[i] != p[i] {
            proof {
                assert(a@.subrange(0, p@.len() as int)[i as int] != p@[i as int]);
            }
            return false;
        }
        i += 1;
    }
    proof {
        assert(a@.subrange(0, p@.len() as int) =~= p@);
    }
    true
}

/// A successful search response: some duplicate-free selection `ds` out of
/// the word's document set, as many as the set holds but at most one hundred,
/// serialized as the response body.
pub open spec fn good_search_response(r: Seq<char>, docs: Set<Seq<char>>) -> bool {
    exists|ds: Seq<Seq<char>>|
        {
            &&& #[trigger] ds.no_duplicates()
            &&& (forall|d: Seq<char>| ds.contains(d) ==> docs.contains(d))
            &&& ds.len() == (if docs.len() < 100 {
                docs.len() as int
            } else {
                100int
            })
            &&& r == ok_with_body(json_array_of(ds))
        }
}

/// What the server does with one request: sleep first where the sleep route
/// was asked for, then write the response and close the connection.
pub struct Reply {
    pub sleep_before: bool,
    pub response: String,
}

/// Answers a search request. The path is everything after the method: its
/// query string is decoded, the `query` field is looked up in the index, and
/// at most the first hundred matching documents are serialized.
pub fn search_handler(path: &Vec<char>, index: &InvertedIndex) -> (r: String)
    ensures
        !has_qs(path@) ==> r@ == status_bad_request(),
        has_qs(path@) && query_of(qs_of(path@)) is None ==> r@ == status_bad_request(),
        query_of(qs_of(path@)) matches Some(q) ==> ((has_qs(path@) && !index@.contains_key(q))
            ==> r@ == status_not_found()),
        query_of(qs_of(path@)) matches Some(q) ==> ((has_qs(path@) && index@.contains_key(q))
            ==> good_search_response(r@, index@[q])),
{
    let n = path.len();
    let mut qpos: usize = 0;
    let mut found_q: bool = false;
    while qpos < n && !found_q
        invariant
            qpos <= n,
            n == path@.len(),
            found_q ==> qpos < n && path@[qpos as int] == '?',
            forall|k: int| 0 <= k < qpos ==> #[trigger] path@[k] != '?',
        decreases n - qpos + (if found_q {
            0int
        } else {
            1int
        }),
    {
        if path[qpos] == '?' {
            found_q = true;
        } else {
            qpos += 1;
        }
    }
    if !found_q {
        proof {
            assert forall|i: int| !(#[trigger] is_first_qmark(path@, i)) by {}
        }
        return bad_request_response();
    }
    proof {
        assert(is_first_qmark(path@, qpos as int));
        let i = choose|i: int| #[trigger] is_first_qmark(path@, i);
        lemma_first_qmark_unique(path@, i, qpos as int);
        assert(qs_of(path@) == path@.subrange(qpos as int + 1, path@.len() as int));
    }
    let qs_chars = subvec(path, qpos + 1, n);
    let qs = string_from_chars(&qs_chars);
    let pairs_opt = parse_query_pairs(qs.as_str());
    match pairs_opt {
        None => {
            proof {
                assert(query_of(qs_of(path@)) is None);
            }
            bad_request_response()
        },
        Some(pairs) => {
            let ghost ps = pairs@.map_values(|p: (String, String)| (p.0@, p.1@));
            let m = pairs.len();
            let mut pi: usize = 0;
            let mut found_key: bool = false;
            while pi < m && !found_key
                invariant
                    pi <= m,
                    m == pairs@.len(),
                    ps == pairs@.map_values(|p: (String, String)| (p.0@, p.1@)),
                    found_key ==> pi < m && pairs@[pi as int].0@ == "query"@,
                    !found_key ==> forall|k: int| 0 <= k < pi ==> (#[trigger] pairs@[k].0@)
                        != "query"@,
                decreases m - pi + (if found_key {
                    0int
                } else {
                    1int
                }),
            {
                if str_eq(pairs[pi].0.as_str(), "query") {
                    found_key = true;
                } else {
                    pi += 1;
                }
            }
            if !found_key {
                proof {
                    assert forall|i: int| 0 <= i < ps.len() implies (#[trigger] ps[i]).0
                        != "query"@ by {
                        assert(ps[i].0 == pairs@[i].0@);
                    }
                    assert(query_of_pairs(ps) is None);
                }
                return bad_request_response();
            }
            let query = &pairs[pi].1;
            proof {
                assert(ps[pi as int].0 == "query"@);
                let i = choose|i: int| 0 <= i < ps.len() && (#[trigger] ps[i]).0 == "query"@;
                assert(pairs@[i].0@ == "query"@);
                assert(i == pi as int);
                assert(query_of_pairs(ps) == Some(query@));
            }
            match index.search(query.as_str()) {
                None => not_found_response(),
                Some(docs) => {
                    let limit: usize = if docs.len() < 100 {
                        docs.len()
                    } else {
                        100
                    };
                    let mut picked: Vec<String> = Vec::new();
                    let mut j: usize = 0;
                    while j < limit
                        invariant
                            j <= limit <= docs@.len(),
                            views_of(picked@) == views_of(docs@).take(j as int),
                        decreases limit - j,
                    {
                        let ghost p0 = picked@;
                        let c = docs[j].clone();
                        let ghost cv = c@;
                        picked.push(c);
                        proof {
                            assert(cv == views_of(docs@)[j as int]);
                            assert(views_of(picked@) =~= views_of(p0).push(cv));
                            assert(views_of(docs@).take(j as int + 1) =~= views_of(docs@).take(
                                j as int,
                            ).push(views_of(docs@)[j as int]));
                            assert(views_of(picked@) =~= views_of(docs@).take(j as int + 1));
                        }
                        j += 1;
                    }
                    let body = to_json_array(&picked);
                    let content_len = byte_len(body.as_str());
                    let mut out = chars_of("HTTP/1.1 200 OK\r\nContent-Length: ");
                    let mut digits = dec_chars(content_len);
                    out.append(&mut digits);
                    let mut blank = chars_of("\r\n\r\n");
                    out.append(&mut blank);
                    let mut body_chars = chars_of(body.as_str());
                    out.append(&mut body_chars);
                    let r = string_from_chars(&out);
                    proof {
                        let ghost q = query@;
                        let ds = views_of(picked@);
                        views_of(docs@).unique_seq_to_set();
                        assert(views_of(docs@).len() == index@[q].len());
                        assert(ds.no_duplicates()) by {
                            assert forall|x: int, y: int| 0 <= x < y < ds.len() implies ds[x]
                                != ds[y] by {
                                assert(ds[x] == views_of(docs@)[x]);
                                assert(ds[y] == views_of(docs@)[y]);
                            }
                        }
                        assert forall|d: Seq<char>| ds.contains(d) implies index@[q].contains(
                            d,
                        ) by {
                            let k = choose|k: int| 0 <= k < ds.len() && ds[k] == d;
                            assert(views_of(docs@)[k] == d);
                            assert(views_of(docs@).contains(d));
                        }
                        assert(r@ == ok_with_body(json_array_of(ds)));
                    }
                    r
                },
            }
        },
    }
}

/// Decides one request from its first line: a non-GET or tokenless line is
/// not found; the sleep route answers ok after the caller sleeps; the search
/// route is answered by `search_handler`; every other path is not found.
pub fn handle_request(line: &str, index: &InvertedIndex) -> (r: Reply)
    ensures
        r.sleep_before <==> (is_get_line(line@) && has_path(line@) && path_of_line(line@)
            == sleep_path()),
        !is_get_line(line@) ==> r.response@ == status_not_found(),
        is_get_line(line@) && !has_path(line@) ==> r.response@ == status_not_found(),
        is_get_line(line@) && has_path(line@) && path_of_line(line@) == sleep_path()
            ==> r.response@ == status_ok(),
        is_get_line(line@) && has_path(line@) && path_of_line(line@) != sleep_path()
            && !is_search_path(path_of_line(line@)) ==> r.response@ == status_not_found(),
        is_get_line(line@) && has_path(line@) && path_of_line(line@) != sleep_path()
            && is_search_path(path_of_line(line@)) ==> {
            let p = path_of_line(line@);
            &&& !has_qs(p) ==> r.response@ == status_bad_request()
            &&& has_qs(p) && query_of(qs_of(p)) is None ==> r.response@ == status_bad_request()
            &&& query_of(qs_of(p)) matches Some(q) ==> ((has_qs(p) && !index@.contains_key(q))
                ==> r.response@ == status_not_found())
            &&& query_of(qs_of(p)) matches Some(q) ==> ((has_qs(p) && index@.contains_key(q))
                ==> good_search_response(r.response@, index@[q]))
        },
{
    let t = chars_of(line);
    let get = chars_of("GET");
    proof {
        reveal_strlit("GET");
    }
    if !chars_prefix(&t, &get) {
        return Reply { sleep_before: false, response: not_found_response() };
    }
    match second_token(&t) {
        None => Reply { sleep_before: false, response: not_found_response() },
        Some((a, b)) => {
            let path = subvec(&t, a, b);
            proof {
                let (ca, cb) = choose|x: int, y: int| #[trigger] is_second_token(t@, x, y);
                lemma_second_token_unique(t@, ca, cb, a as int, b as int);
                assert(path@ == path_of_line(line@));
            }
            let sleep = chars_of("/sleep");
            if chars_eq(&path, &sleep) {
                Reply { sleep_before: true, response: ok_response() }
            } else {
                let search = chars_of("/search");
                proof {
                    reveal_strlit("/search");
                }
                if chars_prefix(&path, &search) {
                    Reply { sleep_before: false, response: search_handler(&path, index) }
                } else {
                    Reply { sleep_before: false, response: not_found_response() }
                }
            }
        },
    }
}

} // verus!
