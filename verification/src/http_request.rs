//! Reading the HTTP requests of the control-plane server: the request path, the body,
//! the Content-Length header, WebSocket upgrade detection, when a request has been read
//! in full, routing, the HTTP framing of a JSON reply, and the refusal of an empty
//! upload.
use vstd::prelude::*;
use vstd::string::{StrSliceExecFns, StringSliceAdditionalSpecFns};
use crate::text::{decimal, push_decimal, law_decimal_reads_back, law_parse_reads_decimal};

verus! {

broadcast use vstd::string::group_string_axioms;

/// Unicode `White_Space`, the whitespace of `char::is_whitespace`, `str::trim` and
/// `str::split_whitespace`.
pub open spec fn is_white(c: char) -> bool {
    let u = c as u32;
    ||| 9 <= u <= 13
    ||| u == 32
    ||| u == 0x85
    ||| u == 0xA0
    ||| u == 0x1680
    ||| 0x2000 <= u <= 0x200A
    ||| u == 0x2028
    ||| u == 0x2029
    ||| u == 0x202F
    ||| u == 0x205F
    ||| u == 0x3000
}

fn white(c: char) -> (b: bool)
    ensures
        b == is_white(c),
{
    let u = c as u32;
    (9 <= u && u <= 13) || u == 32 || u == 0x85 || u == 0xA0 || u == 0x1680 || (0x2000 <= u
        && u <= 0x200A) || u == 0x2028 || u == 0x2029 || u == 0x202F || u == 0x205F || u
        == 0x3000
}

/// The characters of `s`, in order.
pub(crate) fn chars_of(s: &str) -> (v: Vec<char>)
    ensures
        v@ == s@,
{
    let mut v: Vec<char> = Vec::new();
    for c in it: s.chars()
        invariant
            v@ == it.seq().take(it.index() as int),
    {
        v.push(c);
    }
    v
}

/// The end of the line that starts at `i`: the index of the first '\n' at or after `i`,
/// or the length of `s` where there is none.
pub open spec fn line_end(s: Seq<char>, i: int) -> int
    decreases s.len() - i,
{
    if i >= s.len() || s[i] == '\n' {
        i
    } else {
        line_end(s, i + 1)
    }
}

/// The first index at or after `i`, and before `end`, that is not whitespace (`end`
/// where there is none).
pub open spec fn skip_white(s: Seq<char>, i: int, end: int) -> int
    decreases end - i,
{
    if i < end && is_white(s[i]) {
        skip_white(s, i + 1, end)
    } else {
        i
    }
}

/// The first index at or after `i`, and before `end`, that is whitespace (`end` where
/// there is none): the end of a word that starts at `i`.
pub open spec fn word_end(s: Seq<char>, i: int, end: int) -> int
    decreases end - i,
{
    if i < end && !is_white(s[i]) {
        word_end(s, i + 1, end)
    } else {
        i
    }
}

pub proof fn lemma_line_end(s: Seq<char>, i: int)
    requires
        0 <= i,
    ensures
        i <= line_end(s, i),
        i <= s.len() ==> line_end(s, i) <= s.len(),
        line_end(s, i) < s.len() ==> s[line_end(s, i)] == '\n',
        forall|k: int| i <= k < line_end(s, i) ==> s[k] != '\n',
    decreases s.len() - i,
{
    if !(i >= s.len() || s[i] == '\n') {
        lemma_line_end(s, i + 1);
    }
}

pub proof fn lemma_skip_white(s: Seq<char>, i: int, end: int)
    requires
        i <= end,
    ensures
        i <= skip_white(s, i, end) <= end,
        skip_white(s, i, end) < end ==> !is_white(s[skip_white(s, i, end)]),
        forall|k: int| i <= k < skip_white(s, i, end) ==> is_white(s[k]),
    decreases end - i,
{
    if i < end && is_white(s[i]) {
        lemma_skip_white(s, i + 1, end);
    }
}

pub proof fn lemma_word_end(s: Seq<char>, i: int, end: int)
    requires
        i <= end,
    ensures
        i <= word_end(s, i, end) <= end,
        i < end && !is_white(s[i]) ==> i < word_end(s, i, end),
        word_end(s, i, end) < end ==> is_white(s[word_end(s, i, end)]),
        forall|k: int| i <= k < word_end(s, i, end) ==> !is_white(s[k]),
    decreases end - i,
{
    if i < end && !is_white(s[i]) {
        lemma_word_end(s, i + 1, end);
    }
}

/// The bounds of the `n`-th whitespace-separated word of `s` in `[i, end)`, counting
/// from zero (the words of `str::split_whitespace`).
pub open spec fn nth_word(s: Seq<char>, i: int, end: int, n: nat) -> Option<(int, int)>
    decreases end - i, n,
{
    if i > end {
        None
    } else {
        let st = skip_white(s, i, end);
        if st >= end {
            None
        } else {
            let e = word_end(s, st, end);
            if n == 0 {
                Some((st, e))
            } else {
                proof {
                    lemma_skip_white(s, i, end);
                    lemma_word_end(s, st, end);
                }
                nth_word(s, e, end, (n - 1) as nat)
            }
        }
    }
}

/// The path of an HTTP request: the second word of its first line (the words of a
/// request line are the method, the path and the protocol), or "/" where the first
/// line has fewer than two words or the request is empty.
pub open spec fn request_path_of(s: Seq<char>) -> Seq<char> {
    match nth_word(s, 0, line_end(s, 0), 1) {
        Some(w) => s.subrange(w.0, w.1),
        None => seq!['/'],
    }
}

/// The path of a request whose request line starts with a method, one space and a
/// path (each a nonempty run of characters that are not whitespace), followed by the
/// end of the request or by whitespace, is that path.
pub proof fn law_path_is_second_word(method: Seq<char>, path: Seq<char>, rest: Seq<char>)
    requires
        method.len() > 0,
        path.len() > 0,
        forall|k: int| 0 <= k < method.len() ==> !is_white(#[trigger] method[k]),
        forall|k: int| 0 <= k < path.len() ==> !is_white(#[trigger] path[k]),
        rest.len() > 0 ==> is_white(rest[0]),
    ensures
        request_path_of(method + seq![' '] + path + rest) == path,
{
    let s = method + seq![' '] + path + rest;
    let a = method.len() as int;
    let l = a + 1 + path.len();
    assert forall|k: int| 0 <= k < l implies s[k] != '\n' by {
        if k < a {
            assert(s[k] == method[k]);
        } else if k > a {
            assert(s[k] == path[k - a - 1]);
        }
    }
    lemma_line_end(s, 0);
    let e = line_end(s, 0);
    assert(e >= l);
    assert(!is_white(s[0])) by {
        assert(s[0] == method[0]);
    }
    assert(is_white(s[a]));
    assert(!is_white(s[a + 1])) by {
        assert(s[a + 1] == path[0]);
    }
    assert(skip_white(s, 0, e) == 0);
    lemma_word_end(s, 0, e);
    let w0 = word_end(s, 0, e);
    assert(w0 == a) by {
        if w0 < a {
            assert(s[w0] == method[w0]);
        }
    }
    lemma_skip_white(s, a, e);
    let st = skip_white(s, a, e);
    assert(st == a + 1);
    lemma_word_end(s, a + 1, e);
    let w1 = word_end(s, a + 1, e);
    assert(w1 == l) by {
        if w1 < l {
            assert(s[w1] == path[w1 - a - 1]);
        }
        if w1 > l {
            assert(s[l] == rest[0]);
        }
    }
    assert(nth_word(s, a, e, 0) == Some((a + 1, l)));
    assert(nth_word(s, 0, e, 1) == Some((a + 1, l)));
    assert(s.subrange(a + 1, l) =~= path);
}

fn find_line_end(cs: &Vec<char>, i: usize) -> (r: usize)
    requires
        i <= cs.len(),
    ensures
        r == line_end(cs@, i as int),
{
    let mut j = i;
    while j < cs.len() && cs[j] != '\n'
        invariant
            i <= j <= cs.len(),
            line_end(cs@, i as int) == line_end(cs@, j as int),
        decreases cs.len() - j,
    {
        j = j + 1;
    }
    j
}

fn find_skip_white(cs: &Vec<char>, i: usize, end: usize) -> (r: usize)
    requires
        i <= end <= cs.len(),
    ensures
        r == skip_white(cs@, i as int, end as int),
{
    let mut j = i;
    while j < end && white(cs[j])
        invariant
            i <= j <= end <= cs.len(),
            skip_white(cs@, i as int, end as int) == skip_white(cs@, j as int, end as int),
        decreases end - j,
    {
        j = j + 1;
    }
    j
}

fn find_word_end(cs: &Vec<char>, i: usize, end: usize) -> (r: usize)
    requires
        i <= end <= cs.len(),
    ensures
        r == word_end(cs@, i as int, end as int),
{
    let mut j = i;
    while j < end && !white(cs[j])
        invariant
            i <= j <= end <= cs.len(),
            word_end(cs@, i as int, end as int) == word_end(cs@, j as int, end as int),
        decreases end - j,
    {
        j = j + 1;
    }
    j
}

/// The path of an HTTP request (the second word of its request line), "/" where
/// there is none.
pub fn request_path(request: &str) -> (path: String)
    ensures
        path@ == request_path_of(request@),
{
    let cs = chars_of(request);
    let end = find_line_end(&cs, 0);
    proof {
        lemma_line_end(cs@, 0);
    }
    let st0 = find_skip_white(&cs, 0, end);
    proof {
        lemma_skip_white(cs@, 0, end as int);
    }
    if st0 < end {
        let e0 = find_word_end(&cs, st0, end);
        proof {
            lemma_word_end(cs@, st0 as int, end as int);
        }
        let st1 = find_skip_white(&cs, e0, end);
        proof {
            lemma_skip_white(cs@, e0 as int, end as int);
        }
        if st1 < end {
            let e1 = find_word_end(&cs, st1, end);
            proof {
                lemma_word_end(cs@, st1 as int, end as int);
                assert(nth_word(cs@, e0 as int, end as int, 0) == Some((st1 as int, e1 as int)));
            }
            return String::from_str(request.substring_char(st1, e1));
        }
    }
    let slash = "/";
    proof {
        reveal_strlit("/");
    }
    String::from_str(slash)
}

/// Whether `pat` occurs in `s` at `i`.
pub open spec fn occurs_at<A>(s: Seq<A>, pat: Seq<A>, i: int) -> bool {
    0 <= i && i + pat.len() <= s.len() && s.subrange(i, i + pat.len()) == pat
}

/// The first occurrence of `pat` in `s` at or after `i` (the search of `str::find`
/// and `str::split`).
pub open spec fn find_from<A>(s: Seq<A>, pat: Seq<A>, i: int) -> Option<int>
    decreases s.len() - i,
{
    if i < 0 || i + pat.len() > s.len() {
        None
    } else if occurs_at(s, pat, i) {
        Some(i)
    } else if i >= s.len() {
        None
    } else {
        find_from(s, pat, i + 1)
    }
}

/// The blank line that ends the head of an HTTP request.
pub open spec fn blank_line() -> Seq<char> {
    seq!['\r', '\n', '\r', '\n']
}

/// The body of an HTTP request: the second of its parts separated by blank lines
/// ("\r\n\r\n"), empty where there is no blank line.
pub open spec fn request_body_of(s: Seq<char>) -> Seq<char> {
    match find_from(s, blank_line(), 0) {
        None => Seq::empty(),
        Some(m) => match find_from(s, blank_line(), m + 4) {
            None => s.subrange(m + 4, s.len() as int),
            Some(m2) => s.subrange(m + 4, m2),
        },
    }
}

pub proof fn lemma_find_from<A>(s: Seq<A>, pat: Seq<A>, i: int)
    requires
        0 <= i,
    ensures
        find_from(s, pat, i) matches Some(k) ==> i <= k && occurs_at(s, pat, k),
        forall|k: int| i <= k && (find_from(s, pat, i) matches Some(m) ==> k < m) ==> !occurs_at(s, pat, k),
    decreases s.len() - i,
{
    if i + pat.len() > s.len() {
    } else if occurs_at(s, pat, i) {
    } else if i >= s.len() {
    } else {
        lemma_find_from(s, pat, i + 1);
    }
}

/// The body of a request made of a head, one blank line and a body is that body, when
/// the blank line between them is the only one in the request.
pub proof fn law_body_after_blank_line(head: Seq<char>, body: Seq<char>)
    requires
        forall|k: int|
            #![trigger occurs_at(head + blank_line() + body, blank_line(), k)]
            0 <= k && k != head.len() ==> !occurs_at(head + blank_line() + body, blank_line(), k),
    ensures
        request_body_of(head + blank_line() + body) == body,
{
    let s = head + blank_line() + body;
    let m = head.len() as int;
    assert(s.subrange(m, m + 4) =~= blank_line());
    assert(occurs_at(s, blank_line(), m));
    lemma_find_from(s, blank_line(), 0);
    match find_from(s, blank_line(), 0) {
        Some(k) => {
            assert(k == m);
        },
        None => {
            assert(!occurs_at(s, blank_line(), m));
        },
    }
    lemma_find_from(s, blank_line(), m + 4);
    match find_from(s, blank_line(), m + 4) {
        Some(k) => {
            assert(occurs_at(s, blank_line(), k));
        },
        None => {},
    }
    assert(s.subrange(m + 4, s.len() as int) =~= body);
}

/// The first blank line at or after `i`.
fn find_blank_line(cs: &Vec<char>, i: usize) -> (r: Option<usize>)
    requires
        i <= cs.len(),
    ensures
        match r {
            Some(k) => find_from(cs@, blank_line(), i as int) == Some(k as int),
            None => find_from(cs@, blank_line(), i as int) is None,
        },
{
    let mut j = i;
    while j < cs.len()
        invariant
            i <= j <= cs.len(),
            find_from(cs@, blank_line(), i as int) == find_from(cs@, blank_line(), j as int),
        decreases cs.len() - j,
    {
        if cs.len() - j < 4 {
            return None;
        }
        if cs[j] == '\r' && cs[j + 1] == '\n' && cs[j + 2] == '\r' && cs[j + 3] == '\n' {
            assert(cs@.subrange(j as int, j + 4) =~= blank_line());
            return Some(j);
        }
        assert(!occurs_at(cs@, blank_line(), j as int)) by {
            if occurs_at(cs@, blank_line(), j as int) {
                let sub = cs@.subrange(j as int, j + 4);
                assert(sub[0] == cs@[j as int] && sub[1] == cs@[j + 1] && sub[2] == cs@[j + 2]
                    && sub[3] == cs@[j + 3]);
            }
        }
        j = j + 1;
    }
    None
}

/// The body of an HTTP request: the text after its first blank line ("\r\n\r\n"), up
/// to the next blank line; empty where the request has no blank line.
pub fn request_body(request: &str) -> (body: String)
    ensures
        body@ == request_body_of(request@),
{
    let cs = chars_of(request);
    match find_blank_line(&cs, 0) {
        None => String::new(),
        Some(m) => {
            proof {
                lemma_find_from(cs@, blank_line(), 0);
            }
            match find_blank_line(&cs, m + 4) {
                None => String::from_str(request.substring_char(m + 4, cs.len())),
                Some(m2) => {
                    proof {
                        lemma_find_from(cs@, blank_line(), m + 4);
                    }
                    String::from_str(request.substring_char(m + 4, m2))
                },
            }
        },
    }
}

/// Whether `c` lower-cases to `p`, for a lower-case ASCII `p`: `p` itself, its
/// upper-case form, and for 'k' the Kelvin sign, the one other character whose
/// lower case (`char::to_lowercase`) is an ASCII letter alone.
pub open spec fn lower_eq(c: char, p: char) -> bool {
    ||| c == p
    ||| 97 <= (p as u32) <= 122 && (c as u32) == (p as u32) - 32
    ||| p == 'k' && (c as u32) == 0x212A
}

pub(crate) fn lower_eq_exec(c: char, p: char) -> (b: bool)
    ensures
        b == lower_eq(c, p),
{
    let pu = p as u32;
    let cu = c as u32;
    c == p || (97 <= pu && pu <= 122 && cu + 32 == pu) || (p == 'k' && cu == 0x212A)
}

/// Whether `key` occurs at `i` in `s`, before `end`, letters compared without case.
pub open spec fn key_at(s: Seq<char>, i: int, end: int, key: Seq<char>) -> bool {
    &&& 0 <= i
    &&& i + key.len() <= end
    &&& forall|k: int| 0 <= k < key.len() ==> lower_eq(#[trigger] s[i + k], key[k])
}

/// The first line at or after `i` (the lines of `str::lines`) that starts with `key`,
/// letters compared without case: its start and end.
pub open spec fn header_line(s: Seq<char>, key: Seq<char>, i: int) -> Option<(int, int)>
    decreases s.len() - i,
{
    if i < 0 || i >= s.len() {
        None
    } else {
        let e = line_end(s, i);
        if key_at(s, i, e, key) {
            Some((i, e))
        } else if e >= s.len() {
            None
        } else {
            proof {
                lemma_line_end(s, i);
            }
            header_line(s, key, e + 1)
        }
    }
}

/// The first ':' at or after `i` and before `end` (`end` where there is none).
pub open spec fn field_end(s: Seq<char>, i: int, end: int) -> int
    decreases end - i,
{
    if i < end && s[i] != ':' {
        field_end(s, i + 1, end)
    } else {
        i
    }
}

/// The end of `[i, end)` without its trailing whitespace.
pub open spec fn trim_end(s: Seq<char>, i: int, end: int) -> int
    decreases end - i,
{
    if i < end && is_white(s[end - 1]) {
        trim_end(s, i, end - 1)
    } else {
        end
    }
}

/// The value of the first header line that starts with `key` (a lower-case name and
/// its ':'): the text after the key up to the next ':' or the end of the line, with
/// leading and trailing whitespace taken off (a "\r" that ends the line is
/// whitespace). `None` where no line starts with the key.
pub open spec fn header_value(s: Seq<char>, key: Seq<char>) -> Option<Seq<char>> {
    match header_line(s, key, 0) {
        Some(l) => {
            let f = field_end(s, l.0 + key.len(), l.1);
            let a = skip_white(s, l.0 + key.len(), f);
            Some(s.subrange(a, trim_end(s, a, f)))
        },
        None => None,
    }
}

pub proof fn lemma_field_end(s: Seq<char>, i: int, end: int)
    requires
        i <= end,
    ensures
        i <= field_end(s, i, end) <= end,
    decreases end - i,
{
    if i < end && s[i] != ':' {
        lemma_field_end(s, i + 1, end);
    }
}

pub proof fn lemma_trim_end(s: Seq<char>, i: int, end: int)
    requires
        i <= end,
    ensures
        i <= trim_end(s, i, end) <= end,
    decreases end - i,
{
    if i < end && is_white(s[end - 1]) {
        lemma_trim_end(s, i, end - 1);
    }
}

fn find_field_end(cs: &Vec<char>, i: usize, end: usize) -> (r: usize)
    requires
        i <= end <= cs.len(),
    ensures
        r == field_end(cs@, i as int, end as int),
{
    let mut j = i;
    while j < end && cs[j] != ':'
        invariant
            i <= j <= end <= cs.len(),
            field_end(cs@, i as int, end as int) == field_end(cs@, j as int, end as int),
        decreases end - j,
    {
        j = j + 1;
    }
    j
}

fn find_trim_end(cs: &Vec<char>, i: usize, end: usize) -> (r: usize)
    requires
        i <= end <= cs.len(),
    ensures
        r == trim_end(cs@, i as int, end as int),
{
    let mut j = end;
    while j > i && white(cs[j - 1])
        invariant
            i <= j <= end <= cs.len(),
            trim_end(cs@, i as int, end as int) == trim_end(cs@, i as int, j as int),
        decreases j - i,
    {
        j = j - 1;
    }
    j
}

fn key_at_exec(cs: &Vec<char>, i: usize, end: usize, key: &Vec<char>) -> (b: bool)
    requires
        i <= end <= cs.len(),
    ensures
        b == key_at(cs@, i as int, end as int, key@),
{
    if end - i < key.len() {
        return false;
    }
    let mut k: usize = 0;
    while k < key.len()
        invariant
            i + key.len() <= end <= cs.len(),
            0 <= k <= key.len(),
            forall|q: int| 0 <= q < k ==> lower_eq(#[trigger] cs@[i + q], key@[q]),
        decreases key.len() - k,
    {
        if !lower_eq_exec(cs[i + k], key[k]) {
            assert(!lower_eq(cs@[i + k as int], key@[k as int]));
            return false;
        }
        k = k + 1;
    }
    true
}

/// The bounds of the value of the first header line that starts with `key`.
fn find_header_value(cs: &Vec<char>, key: &Vec<char>) -> (r: Option<(usize, usize)>)
    ensures
        match r {
            Some(b) => header_value(cs@, key@) == Some(cs@.subrange(b.0 as int, b.1 as int))
                && b.0 <= b.1 <= cs.len(),
            None => header_value(cs@, key@) is None,
        },
{
    let mut i: usize = 0;
    while i < cs.len()
        invariant
            i <= cs.len(),
            header_line(cs@, key@, 0) == header_line(cs@, key@, i as int),
        decreases cs.len() - i,
    {
        let e = find_line_end(cs, i);
        proof {
            lemma_line_end(cs@, i as int);
        }
        if key_at_exec(cs, i, e, key) {
            let v = i + key.len();
            let f = find_field_end(cs, v, e);
            proof {
                lemma_field_end(cs@, v as int, e as int);
            }
            let a = find_skip_white(cs, v, f);
            proof {
                lemma_skip_white(cs@, v as int, f as int);
            }
            let b = find_trim_end(cs, a, f);
            proof {
                lemma_trim_end(cs@, a as int, f as int);
            }
            return Some((a, b));
        }
        if e >= cs.len() {
            return None;
        }
        i = e + 1;
    }
    None
}

/// The value of an ASCII digit (zero for any other character).
pub open spec fn digit_value(c: char) -> nat {
    if 48 <= (c as u32) <= 57 {
        ((c as u32) - 48) as nat
    } else {
        0
    }
}

pub open spec fn is_digit(c: char) -> bool {
    48 <= (c as u32) <= 57
}

/// The number that a string of decimal digits writes.
pub open spec fn digits_value(d: Seq<char>) -> nat
    decreases d.len(),
{
    if d.len() == 0 {
        0
    } else {
        digits_value(d.drop_last()) * 10 + digit_value(d.last())
    }
}

/// The digits of an unsigned numeral: the text without a leading '+'.
pub open spec fn unsigned_digits(t: Seq<char>) -> Seq<char> {
    if t.len() > 0 && t[0] == '+' {
        t.drop_first()
    } else {
        t
    }
}

/// What `usize::from_str` gives: an optional '+' and at least one ASCII digit, whose
/// value fits in a `usize`; `None` for anything else.
pub open spec fn parse_usize(t: Seq<char>) -> Option<usize> {
    let d = unsigned_digits(t);
    if d.len() > 0 && (forall|k: int| 0 <= k < d.len() ==> is_digit(#[trigger] d[k]))
        && digits_value(d) <= usize::MAX {
        Some(digits_value(d) as usize)
    } else {
        None
    }
}

pub proof fn lemma_digits_prefix(d: Seq<char>, k: int)
    requires
        0 <= k <= d.len(),
    ensures
        digits_value(d.take(k)) <= digits_value(d),
    decreases d.len(),
{
    if k < d.len() {
        lemma_digits_prefix(d.drop_last(), k);
        assert(d.drop_last().take(k) =~= d.take(k));
    } else {
        assert(d.take(k) =~= d);
    }
}

fn parse_usize_exec(cs: &Vec<char>, a: usize, b: usize) -> (r: Option<usize>)
    requires
        a <= b <= cs.len(),
    ensures
        r == parse_usize(cs@.subrange(a as int, b as int)),
{
    let ghost t = cs@.subrange(a as int, b as int);
    let st: usize = if a < b && cs[a] == '+' {
        a + 1
    } else {
        a
    };
    let ghost d = cs@.subrange(st as int, b as int);
    assert(d =~= unsigned_digits(t));
    if st == b {
        return None;
    }
    let mut acc: usize = 0;
    let mut k = st;
    while k < b
        invariant
            a <= st <= k <= b <= cs.len(),
            st < b,
            d == cs@.subrange(st as int, b as int),
            t == cs@.subrange(a as int, b as int),
            d == unsigned_digits(t),
            acc == digits_value(cs@.subrange(st as int, k as int)),
            forall|q: int| st <= q < k ==> is_digit(#[trigger] cs@[q]),
        decreases b - k,
    {
        let c = cs[k];
        let cu = c as u32;
        if cu < 48 || cu > 57 {
            assert(d[k - st] == c);
            assert(!is_digit(d[k - st]));
            assert(parse_usize(t) is None);
            return None;
        }
        let dv = (cu - 48) as usize;
        proof {
            assert(cs@.subrange(st as int, k + 1).drop_last() =~= cs@.subrange(st as int, k as int));
            assert(d.take(k + 1 - st) =~= cs@.subrange(st as int, k + 1));
            lemma_digits_prefix(d, k + 1 - st);
        }
        assert(digits_value(cs@.subrange(st as int, k + 1)) == acc * 10 + dv);
        match acc.checked_mul(10) {
            None => {
                assert(parse_usize(t) is None);
                return None;
            },
            Some(m) => match m.checked_add(dv) {
                None => {
                    assert(parse_usize(t) is None);
                    return None;
                },
                Some(n) => {
                    acc = n;
                },
            },
        }
        k = k + 1;
    }
    assert(cs@.subrange(st as int, k as int) =~= d);
    Some(acc)
}

/// The value of the Content-Length header of an HTTP request: the first line whose
/// lower case starts with "content-length:", its text up to the next ':' trimmed and
/// read as a `usize`. `None` where no line has the name or its value does not read.
pub open spec fn content_length_of(s: Seq<char>) -> Option<usize> {
    match header_value(s, "content-length:"@) {
        Some(v) => parse_usize(v),
        None => None,
    }
}

/// `field_end` stops at the end of a stretch without ':'.
proof fn lemma_field_end_none(s: Seq<char>, i: int, end: int)
    requires
        i <= end,
        forall|k: int| i <= k < end ==> s[k] != ':',
    ensures
        field_end(s, i, end) == end,
    decreases end - i,
{
    if i < end {
        lemma_field_end_none(s, i + 1, end);
    }
}

/// A request whose first line does not begin with 'c' or 'C' and whose second line is
/// "Content-Length: " and the decimal numeral of `n`, ended by "\r\n", has content
/// length `n`.
pub proof fn law_content_length_reads_header(line: Seq<char>, n: usize, rest: Seq<char>)
    requires
        line.len() > 0,
        line[0] != 'c' && line[0] != 'C',
        forall|k: int| 0 <= k < line.len() ==> #[trigger] line[k] != '\n',
    ensures
        content_length_of(
            line + seq!['\n'] + "Content-Length: "@ + decimal(n as nat) + seq!['\r', '\n'] + rest,
        ) == Some(n),
{
    reveal_strlit("Content-Length: ");
    reveal_strlit("content-length:");
    let hdr = "Content-Length: "@;
    let key = "content-length:"@;
    let d = decimal(n as nat);
    law_decimal_reads_back(n as nat);
    law_parse_reads_decimal(n);
    let s = line + seq!['\n'] + hdr + d + seq!['\r', '\n'] + rest;
    let a = line.len() as int;
    let h0 = a + 1;
    let dl = d.len() as int;
    let e1 = h0 + 16 + dl + 1;
    assert(hdr.len() == 16 && key.len() == 15);
    // the first line
    assert forall|k: int| 0 <= k < a implies s[k] != '\n' by {
        assert(s[k] == line[k]);
    }
    assert(s[a] == '\n');
    lemma_line_end(s, 0);
    assert(line_end(s, 0) == a);
    assert(!lower_eq(s[0int + 0int], key[0])) by {
        assert(s[0] == line[0]);
        vstd::utf8::char_u32_cast(line[0], line[0] as u32);
        vstd::utf8::char_u32_cast('c', 99);
        vstd::utf8::char_u32_cast('C', 67);
    }
    assert(!key_at(s, 0, a, key));
    // the second line
    assert forall|k: int| h0 <= k < e1 implies s[k] != '\n' by {
        if k < h0 + 16 {
            assert(s[k] == hdr[k - h0]);
        } else if k < h0 + 16 + dl {
            assert(s[k] == d[k - h0 - 16]);
            assert(is_digit(d[k - h0 - 16]));
        } else {
            assert(s[k] == '\r');
        }
    }
    assert(s[e1] == '\n');
    lemma_line_end(s, h0);
    assert(line_end(s, h0) == e1);
    assert forall|k: int| 0 <= k < key.len() implies lower_eq(#[trigger] s[h0 + k], key[k]) by {
        assert(s[h0 + k] == hdr[k]);
    }
    assert(key_at(s, h0, e1, key));
    assert(header_line(s, key, h0) == Some((h0, e1)));
    assert(header_line(s, key, 0) == Some((h0, e1)));
    // the value
    assert forall|k: int| h0 + 15 <= k < e1 implies s[k] != ':' by {
        if k < h0 + 16 {
            assert(s[k] == ' ');
        } else if k < h0 + 16 + dl {
            assert(s[k] == d[k - h0 - 16]);
            assert(is_digit(d[k - h0 - 16]));
        } else {
            assert(s[k] == '\r');
        }
    }
    lemma_field_end_none(s, h0 + 15, e1);
    assert(s[h0 + 15] == ' ');
    assert(s[h0 + 16] == d[0]);
    assert(is_digit(d[0]));
    lemma_skip_white(s, h0 + 15, e1);
    assert(skip_white(s, h0 + 15, e1) == h0 + 16);
    assert(s[e1 - 1] == '\r');
    assert(s[e1 - 2] == d[dl - 1]);
    assert(is_digit(d[dl - 1]));
    assert(trim_end(s, h0 + 16, e1 - 1) == e1 - 1);
    assert(trim_end(s, h0 + 16, e1) == e1 - 1);
    assert(s.subrange(h0 + 16, e1 - 1) =~= d);
    assert(header_value(s, key) == Some(d));
}

/// The value of the Content-Length header of an HTTP request, `None` where the request
/// has none or its value is not a number that fits in a `usize`.
pub fn extract_content_length(request: &str) -> (r: Option<usize>)
    ensures
        r == content_length_of(request@),
{
    let cs = chars_of(request);
    let key = chars_of("content-length:");
    match find_header_value(&cs, &key) {
        Some(b) => parse_usize_exec(&cs, b.0, b.1),
        None => None,
    }
}

/// The Sec-WebSocket-Key of a WebSocket upgrade request: the value of its first line
/// whose lower case starts with "sec-websocket-key:", trimmed; `None` where there is
/// no such line.
pub fn websocket_key(request: &str) -> (r: Option<String>)
    ensures
        match r {
            Some(k) => header_value(request@, "sec-websocket-key:"@) == Some(k@),
            None => header_value(request@, "sec-websocket-key:"@) is None,
        },
{
    let cs = chars_of(request);
    let key = chars_of("sec-websocket-key:");
    match find_header_value(&cs, &key) {
        Some(b) => Some(String::from_str(request.substring_char(b.0, b.1))),
        None => None,
    }
}

/// Whether `pat` occurs at `i` in `s`, letters compared without case.
pub open spec fn occurs_lower_at(s: Seq<char>, pat: Seq<char>, i: int) -> bool {
    key_at(s, i, s.len() as int, pat)
}

/// Whether the lower case of `s` contains `pat` (a lower-case ASCII text).
pub open spec fn contains_lower(s: Seq<char>, pat: Seq<char>) -> bool {
    exists|i: int| occurs_lower_at(s, pat, i)
}

fn contains_lower_exec(cs: &Vec<char>, pat: &Vec<char>) -> (b: bool)
    ensures
        b == contains_lower(cs@, pat@),
{
    let mut i: usize = 0;
    while i < cs.len() && cs.len() - i >= pat.len()
        invariant
            i <= cs.len(),
            forall|j: int| 0 <= j < i ==> !occurs_lower_at(cs@, pat@, j),
        decreases cs.len() - i,
    {
        if key_at_exec(cs, i, cs.len(), pat) {
            assert(occurs_lower_at(cs@, pat@, i as int));
            return true;
        }
        i = i + 1;
    }
    if pat.len() == 0 {
        assert(occurs_lower_at(cs@, pat@, cs.len() as int));
        return true;
    }
    assert forall|j: int| !occurs_lower_at(cs@, pat@, j) by {
        if j >= i {
            assert(!(j + pat@.len() <= cs.len()));
        }
    }
    false
}

/// Whether an HTTP request asks for a WebSocket upgrade: its lower case contains both
/// "upgrade: websocket" and "connection: upgrade".
pub fn is_websocket_upgrade(request: &str) -> (b: bool)
    ensures
        b == (contains_lower(request@, "upgrade: websocket"@) && contains_lower(
            request@,
            "connection: upgrade"@,
        )),
{
    let cs = chars_of(request);
    let upgrade = chars_of("upgrade: websocket");
    let connection = chars_of("connection: upgrade");
    contains_lower_exec(&cs, &upgrade) && contains_lower_exec(&cs, &connection)
}

/// The blank line that ends the head of an HTTP request, as bytes.
pub open spec fn blank_line_bytes() -> Seq<u8> {
    seq![13u8, 10u8, 13u8, 10u8]
}

/// The first occurrence of `pat` in `b`.
fn find_bytes(b: &[u8], pat: &[u8]) -> (r: Option<usize>)
    ensures
        match r {
            Some(k) => find_from(b@, pat@, 0) == Some(k as int),
            None => find_from(b@, pat@, 0) is None,
        },
{
    let mut i: usize = 0;
    while i <= b.len()
        invariant
            find_from(b@, pat@, 0) == find_from(b@, pat@, i as int),
        decreases b.len() + 1 - i,
    {
        if b.len() - i < pat.len() {
            return None;
        }
        let mut k: usize = 0;
        while k < pat.len() && b[i + k] == pat[k]
            invariant
                i + pat.len() <= b.len(),
                0 <= k <= pat.len(),
                forall|q: int| 0 <= q < k ==> b@[i + q] == pat@[q],
            decreases pat.len() - k,
        {
            k = k + 1;
        }
        if k == pat.len() {
            assert(b@.subrange(i as int, i + pat.len()) =~= pat@);
            return Some(i);
        }
        assert(!occurs_at(b@, pat@, i as int)) by {
            if occurs_at(b@, pat@, i as int) {
                assert(b@.subrange(i as int, i + pat.len())[k as int] == b@[i + k]);
            }
        }
        if i == b.len() {
            return None;
        }
        i = i + 1;
    }
    None
}

/// Whether an HTTP request of which `total_read` bytes have arrived, `bytes` (their text
/// `text`), has been read in full into a buffer of `capacity` bytes: where it has a
/// Content-Length, once the bytes after its first blank line are at least that many;
/// where it has none, once a blank line has arrived and the bytes do not hold
/// "Content-Length" (letters as written); and in any case once the buffer is full.
pub open spec fn read_complete(
    text: Seq<char>,
    bytes: Seq<u8>,
    total_read: int,
    capacity: int,
) -> bool {
    ||| match content_length_of(text) {
        Some(cl) => match find_from(bytes, blank_line_bytes(), 0) {
            Some(b) => total_read - b - 4 >= cl,
            None => false,
        },
        None => find_from(bytes, blank_line_bytes(), 0) is Some && find_from(
            bytes,
            "Content-Length".spec_bytes(),
            0,
        ) is None,
    }
    ||| total_read >= capacity
}

/// Whether the server has read an HTTP request in full: `partial` is the text of the
/// `total_read` bytes that have arrived, into a buffer of `capacity` bytes.
pub fn request_read_complete(partial: &str, total_read: usize, capacity: usize) -> (done: bool)
    requires
        content_length_of(partial@) is Some && find_from(
            partial.spec_bytes(),
            blank_line_bytes(),
            0,
        ) is Some ==> find_from(partial.spec_bytes(), blank_line_bytes(), 0).unwrap() + 4
            <= total_read,
    ensures
        done == read_complete(partial@, partial.spec_bytes(), total_read as int, capacity as int),
{
    let bytes = partial.as_bytes();
    let blank: [u8; 4] = [13u8, 10u8, 13u8, 10u8];
    assert(blank@ =~= blank_line_bytes());
    let complete = match extract_content_length(partial) {
        Some(cl) => match find_bytes(bytes, blank.as_slice()) {
            Some(body_start) => total_read - body_start - 4 >= cl,
            None => false,
        },
        None => {
            let name = "Content-Length".as_bytes();
            find_bytes(bytes, blank.as_slice()).is_some() && find_bytes(bytes, name).is_none()
        },
    };
    complete || total_read >= capacity
}

/// The start of the reply to an HTTP request, up to the length of its JSON body.
pub open spec fn reply_head() -> Seq<char> {
    "HTTP/1.1 200 OK\r\nContent-Type: application/json\r\nAccess-Control-Allow-Origin: *\r\nContent-Length: "@
}

/// The reply to an HTTP request that carries the JSON text `body`: status 200, JSON
/// content, open to any origin, and the length of the body in bytes.
pub fn http_ok_response(body: &str) -> (r: String)
    requires
        body.spec_bytes().len() <= usize::MAX,
    ensures
        r@ == reply_head() + decimal(body.spec_bytes().len()) + "\r\n\r\n"@ + body@,
{
    let mut r = String::from_str(
        "HTTP/1.1 200 OK\r\nContent-Type: application/json\r\nAccess-Control-Allow-Origin: *\r\nContent-Length: ",
    );
    push_decimal(&mut r, body.len() as u64);
    r.append("\r\n\r\n");
    r.append(body);
    r
}

/// The command that a plain HTTP path asks for.
#[derive(Debug, Clone, Copy, PartialEq, Eq, Structural)]
pub enum PathCommand {
    Health,
    Stats,
    CascadeStats,
    MemoryStats,
    BandwidthStats,
    CacheStats,
}

/// What the server does with an HTTP request.
#[derive(Debug, Clone, Copy, PartialEq, Eq, Structural)]
pub enum HttpRoute {
    /// Describe the WebSocket endpoint ("/ws", "/websocket").
    WebSocketInfo,
    /// Report the activation-prediction service ("/v1/indices/stats", "/v1/health").
    PredictionStatus,
    /// Predict activations ("/v1/predict").
    Predict,
    /// Refuse an index upload without a body ("/v1/index/upload").
    UploadEmptyBody,
    /// Take the uploaded index in the body ("/v1/index/upload").
    UploadIndex,
    /// Run a command: "/" and "/health" and any other path ask for the health.
    Command(PathCommand),
}

/// The route of a request with path `path` and body `body`.
pub open spec fn route_of(path: Seq<char>, body: Seq<char>) -> HttpRoute {
    if path == "/ws"@ || path == "/websocket"@ {
        HttpRoute::WebSocketInfo
    } else if path == "/v1/indices/stats"@ || path == "/v1/health"@ {
        HttpRoute::PredictionStatus
    } else if path == "/v1/predict"@ {
        HttpRoute::Predict
    } else if path == "/v1/index/upload"@ {
        if body.len() == 0 {
            HttpRoute::UploadEmptyBody
        } else {
            HttpRoute::UploadIndex
        }
    } else if path == "/stats"@ {
        HttpRoute::Command(PathCommand::Stats)
    } else if path == "/cascade"@ {
        HttpRoute::Command(PathCommand::CascadeStats)
    } else if path == "/memory"@ {
        HttpRoute::Command(PathCommand::MemoryStats)
    } else if path == "/bandwidth"@ {
        HttpRoute::Command(PathCommand::BandwidthStats)
    } else if path == "/cache/stats"@ {
        HttpRoute::Command(PathCommand::CacheStats)
    } else {
        HttpRoute::Command(PathCommand::Health)
    }
}

/// Whether the text `s` is `lit`.
fn text_is(s: &str, lit: &str) -> (b: bool)
    ensures
        b == (s@ == lit@),
{
    let a = chars_of(s);
    let c = chars_of(lit);
    if a.len() != c.len() {
        return false;
    }
    let mut i: usize = 0;
    while i < a.len()
        invariant
            a@ == s@,
            c@ == lit@,
            a.len() == c.len(),
            0 <= i <= a.len(),
            forall|k: int| 0 <= k < i ==> a@[k] == c@[k],
        decreases a.len() - i,
    {
        if a[i] != c[i] {
            return false;
        }
        i += 1;
    }
    assert(a@ =~= c@);
    true
}

/// The route of an HTTP request, by its path (the second word of its request line)
/// and, for an index upload, whether it has a body.
pub fn route_request(request: &str) -> (r: HttpRoute)
    ensures
        r == route_of(request_path_of(request@), request_body_of(request@)),
{
    let path = request_path(request);
    let p = path.as_str();
    if text_is(p, "/ws") || text_is(p, "/websocket") {
        HttpRoute::WebSocketInfo
    } else if text_is(p, "/v1/indices/stats") || text_is(p, "/v1/health") {
        HttpRoute::PredictionStatus
    } else if text_is(p, "/v1/predict") {
        HttpRoute::Predict
    } else if text_is(p, "/v1/index/upload") {
        let body = request_body(request);
        if body.as_str().is_empty() {
            HttpRoute::UploadEmptyBody
        } else {
            HttpRoute::UploadIndex
        }
    } else if text_is(p, "/stats") {
        HttpRoute::Command(PathCommand::Stats)
    } else if text_is(p, "/cascade") {
        HttpRoute::Command(PathCommand::CascadeStats)
    } else if text_is(p, "/memory") {
        HttpRoute::Command(PathCommand::MemoryStats)
    } else if text_is(p, "/bandwidth") {
        HttpRoute::Command(PathCommand::BandwidthStats)
    } else if text_is(p, "/cache/stats") {
        HttpRoute::Command(PathCommand::CacheStats)
    } else {
        HttpRoute::Command(PathCommand::Health)
    }
}

/// The JSON text of the reply that refuses an index upload without a body: success
/// false, error "EMPTY_BODY" and a message, keys in order, indented by two spaces.
pub open spec fn empty_upload_reply_text() -> Seq<char> {
    "{\n  \"error\": \"EMPTY_BODY\",\n  \"message\": \"Request body is empty. Send GFEF index JSON.\",\n  \"success\": false\n}"@
}

/// The reply to an index upload without a body.
pub fn empty_upload_reply() -> (r: String)
    ensures
        r@ == empty_upload_reply_text(),
{
    String::from_str(
        "{\n  \"error\": \"EMPTY_BODY\",\n  \"message\": \"Request body is empty. Send GFEF index JSON.\",\n  \"success\": false\n}",
    )
}

} // verus!
