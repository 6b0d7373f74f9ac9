//! The mathematical model of the cookies.txt format: what a line is, which
//! lines are candidates, how a candidate splits into fields, and which
//! cookies a whole text yields.

use vstd::prelude::*;

verus! {

/// What one parsed cookie line contributes to the jar, keyed by name.
#[verifier::ext_equal]
pub ghost struct CookieData {
    pub value: Seq<char>,
    pub domain: Seq<char>,
    pub path: Seq<char>,
    pub secure: bool,
    pub http_only: bool,
    pub expires: int,
}

/// The whitespace of the format: the ASCII whitespace characters that
/// separate fields and pad lines.
pub open spec fn is_ws(c: char) -> bool {
    c == ' ' || c == '\t' || c == '\n' || c == '\r' || c == '\u{b}' || c == '\u{c}'
}

/// The marker that flags an HTTP-only cookie entry: a comment-shaped line
/// whose domain follows the marker directly.
pub open spec fn httponly_marker() -> Seq<char> {
    seq!['#', 'H', 't', 't', 'p', 'O', 'n', 'l', 'y', '_']
}

/// The one field value that makes the secure flag true.
pub open spec fn true_field() -> Seq<char> {
    seq!['T', 'R', 'U', 'E']
}

pub open spec fn starts_with(s: Seq<char>, p: Seq<char>) -> bool {
    p.len() <= s.len() && s.subrange(0, p.len() as int) == p
}

/// The end of the line that starts at `i`: the first `'\n'` at or after
/// `i`, or the end of the text.
pub open spec fn line_end(s: Seq<char>, i: int) -> int
    decreases s.len() - i,
{
    if i < 0 || i >= s.len() {
        s.len() as int
    } else if s[i] == '\n' {
        i
    } else {
        line_end(s, i + 1)
    }
}

/// The position just past a line that ends at `e`.
pub open spec fn after_line(s: Seq<char>, e: int) -> int {
    if e < s.len() {
        e + 1
    } else {
        s.len() as int
    }
}

pub proof fn lemma_line_end_bounds(s: Seq<char>, i: int)
    requires
        0 <= i <= s.len(),
    ensures
        i <= line_end(s, i) <= s.len(),
        line_end(s, i) < s.len() ==> s[line_end(s, i)] == '\n',
        forall|j: int| i <= j < line_end(s, i) ==> s[j] != '\n',
    decreases s.len() - i,
{
    if i < s.len() && s[i] != '\n' {
        lemma_line_end_bounds(s, i + 1);
    }
}

/// The first index at or after `i` that does not hold whitespace.
pub open spec fn skip_ws(s: Seq<char>, i: int) -> int
    decreases s.len() - i,
{
    if i < 0 || i >= s.len() {
        s.len() as int
    } else if is_ws(s[i]) {
        skip_ws(s, i + 1)
    } else {
        i
    }
}

pub proof fn lemma_skip_ws_bounds(s: Seq<char>, i: int)
    requires
        0 <= i <= s.len(),
    ensures
        i <= skip_ws(s, i) <= s.len(),
        skip_ws(s, i) < s.len() ==> !is_ws(s[skip_ws(s, i)]),
        forall|j: int| i <= j < skip_ws(s, i) ==> is_ws(#[trigger] s[j]),
    decreases s.len() - i,
{
    if i < s.len() && is_ws(s[i]) {
        lemma_skip_ws_bounds(s, i + 1);
    }
}

/// The first index at or after `i` that holds whitespace: the end of the
/// field that starts at `i`.
pub open spec fn token_end(s: Seq<char>, i: int) -> int
    decreases s.len() - i,
{
    if i < 0 || i >= s.len() {
        s.len() as int
    } else if is_ws(s[i]) {
        i
    } else {
        token_end(s, i + 1)
    }
}

pub proof fn lemma_token_end_bounds(s: Seq<char>, i: int)
    requires
        0 <= i <= s.len(),
    ensures
        i <= token_end(s, i) <= s.len(),
        token_end(s, i) < s.len() ==> is_ws(s[token_end(s, i)]),
        forall|j: int| i <= j < token_end(s, i) ==> !is_ws(#[trigger] s[j]),
    decreases s.len() - i,
{
    if i < s.len() && !is_ws(s[i]) {
        lemma_token_end_bounds(s, i + 1);
    }
}

/// The end of `s` once trailing whitespace before `j` is dropped.
pub open spec fn trim_end_idx(s: Seq<char>, j: int) -> int
    decreases j,
{
    if j <= 0 {
        0
    } else if is_ws(s[j - 1]) {
        trim_end_idx(s, j - 1)
    } else {
        j
    }
}

pub proof fn lemma_trim_end_bounds(s: Seq<char>, j: int)
    requires
        0 <= j <= s.len(),
    ensures
        0 <= trim_end_idx(s, j) <= j,
        trim_end_idx(s, j) > 0 ==> !is_ws(s[trim_end_idx(s, j) - 1]),
        forall|k: int| trim_end_idx(s, j) <= k < j ==> is_ws(#[trigger] s[k]),
    decreases j,
{
    if j > 0 && is_ws(s[j - 1]) {
        lemma_trim_end_bounds(s, j - 1);
    }
}

/// `s` without leading and trailing whitespace.
pub open spec fn trim_seq(s: Seq<char>) -> Seq<char> {
    let a: int = skip_ws(s, 0);
    let b: int = trim_end_idx(s, s.len() as int);
    if a < b {
        s.subrange(a, b)
    } else {
        Seq::empty()
    }
}

/// A non-empty trimmed text neither starts nor ends with whitespace.
pub proof fn lemma_trim_seq_ends(s: Seq<char>)
    ensures
        trim_seq(s).len() > 0 ==> !is_ws(trim_seq(s)[0]),
        trim_seq(s).len() > 0 ==> !is_ws(trim_seq(s)[trim_seq(s).len() - 1]),
{
    lemma_skip_ws_bounds(s, 0);
    lemma_trim_end_bounds(s, s.len() as int);
}

/// The line filter: a `'#'` line that does not carry the HTTP-only marker
/// is a comment and gives nothing; any other line gives its trimmed text,
/// unless that is empty.
pub open spec fn candidate_of(line: Seq<char>) -> Option<Seq<char>> {
    if line.len() > 0 && line[0] == '#' && !starts_with(line, httponly_marker()) {
        None
    } else {
        let t: Seq<char> = trim_seq(line);
        if t.len() == 0 {
            None
        } else {
            Some(t)
        }
    }
}

/// At most `k` fields of `s` from `i` on, split on runs of whitespace; the
/// last field absorbs the rest of the text, embedded whitespace included.
pub open spec fn fields_from(s: Seq<char>, i: int, k: nat) -> Seq<Seq<char>>
    decreases k,
{
    if i < 0 || i >= s.len() || k == 0 {
        Seq::empty()
    } else if k == 1 {
        seq![s.subrange(i, s.len() as int)]
    } else {
        let e: int = token_end(s, i);
        seq![s.subrange(i, e)] + fields_from(s, skip_ws(s, e), (k - 1) as nat)
    }
}

/// The at most seven fields of a candidate line.
pub open spec fn split7(s: Seq<char>) -> Seq<Seq<char>> {
    fields_from(s, 0, 7)
}

pub open spec fn is_digit(c: char) -> bool {
    48 <= c as u32 && c as u32 <= 57
}

pub open spec fn digit_val(c: char) -> int {
    c as u32 - 48
}

pub open spec fn all_digits(s: Seq<char>) -> bool {
    forall|j: int| 0 <= j < s.len() ==> is_digit(#[trigger] s[j])
}

/// The value of a run of decimal digits.
pub open spec fn digits_val(s: Seq<char>) -> int
    decreases s.len(),
{
    if s.len() == 0 {
        0
    } else {
        digits_val(s.drop_last()) * 10 + digit_val(s.last())
    }
}

/// What parsing the expiry field as a signed 64-bit decimal integer
/// yields: an optional sign, then one or more digits, and a value within
/// the type's range; anything else is no integer.
pub open spec fn parse_i64_spec(s: Seq<char>) -> Option<int> {
    let neg: bool = s.len() > 0 && s[0] == '-';
    let ds: Seq<char> = if s.len() > 0 && (s[0] == '+' || s[0] == '-') {
        s.drop_first()
    } else {
        s
    };
    if ds.len() == 0 || !all_digits(ds) {
        None
    } else {
        let v: int = if neg {
            -digits_val(ds)
        } else {
            digits_val(ds)
        };
        if i64::MIN <= v <= i64::MAX {
            Some(v)
        } else {
            None
        }
    }
}

/// The timestamp the jar keeps for a cookie: the cookie's own when the
/// date type can represent it (the years -9999 through 9999), else the
/// epoch.
pub open spec fn expiry_stored(e: int) -> int {
    if -377705116800 <= e <= 253402300799 {
        e
    } else {
        0
    }
}

/// One candidate line's cookie: `None` unless the line splits into exactly
/// seven fields. Field order: domain, subdomain flag (unused), path,
/// secure, expiry, name, value; a leading HTTP-only marker is stripped
/// from the domain.
pub open spec fn line_record(line: Seq<char>) -> Option<(Seq<char>, CookieData)> {
    let parts: Seq<Seq<char>> = split7(line);
    if parts.len() != 7 {
        None
    } else {
        let http_only: bool = starts_with(parts[0], httponly_marker());
        let domain: Seq<char> = if http_only {
            parts[0].skip(10)
        } else {
            parts[0]
        };
        let expires: int = match parse_i64_spec(parts[4]) {
            Some(v) => v,
            None => 0,
        };
        Some(
            (
                parts[5],
                CookieData {
                    value: parts[6],
                    domain,
                    path: parts[2],
                    secure: parts[3] == true_field(),
                    http_only,
                    expires: expiry_stored(expires),
                },
            ),
        )
    }
}

/// The first candidate line at or after `i`, with the position just past
/// it.
pub open spec fn first_candidate(s: Seq<char>, i: int) -> Option<(Seq<char>, int)>
    decreases s.len() - i,
{
    if i < 0 || i >= s.len() {
        None
    } else {
        let e: int = line_end(s, i);
        let n: int = after_line(s, e);
        proof {
            lemma_line_end_bounds(s, i);
        }
        match candidate_of(s.subrange(i, e)) {
            Option::None => first_candidate(s, n),
            Option::Some(c) => Some((c, n)),
        }
    }
}

pub proof fn lemma_first_candidate_advances(s: Seq<char>, i: int)
    requires
        0 <= i <= s.len(),
    ensures
        first_candidate(s, i) matches Some((c, n)) ==> i < n <= s.len(),
    decreases s.len() - i,
{
    if i < s.len() {
        lemma_line_end_bounds(s, i);
        let e: int = line_end(s, i);
        let n: int = after_line(s, e);
        if candidate_of(s.subrange(i, e)) is None {
            lemma_first_candidate_advances(s, n);
        }
    }
}

/// A candidate line is trimmed: non-empty, not starting with whitespace.
pub proof fn lemma_first_candidate_trimmed(s: Seq<char>, i: int)
    requires
        0 <= i <= s.len(),
    ensures
        first_candidate(s, i) matches Some((c, n)) ==> c.len() > 0 && !is_ws(c[0]),
    decreases s.len() - i,
{
    if i < s.len() {
        lemma_line_end_bounds(s, i);
        let e: int = line_end(s, i);
        let n: int = after_line(s, e);
        match candidate_of(s.subrange(i, e)) {
            Option::None => lemma_first_candidate_trimmed(s, n),
            Option::Some(c) => lemma_trim_seq_ends(s.subrange(i, e)),
        }
    }
}

/// The first line at or after `i` that yields a cookie, with the position
/// just past it.
pub open spec fn first_record(s: Seq<char>, i: int) -> Option<(Seq<char>, CookieData, int)>
    decreases s.len() - i,
{
    if i < 0 || i >= s.len() {
        None
    } else {
        let e: int = line_end(s, i);
        let n: int = after_line(s, e);
        proof {
            lemma_line_end_bounds(s, i);
        }
        match candidate_of(s.subrange(i, e)) {
            Option::None => first_record(s, n),
            Option::Some(c) => match line_record(c) {
                Option::None => first_record(s, n),
                Option::Some((nm, d)) => Some((nm, d, n)),
            },
        }
    }
}

pub proof fn lemma_first_record_advances(s: Seq<char>, i: int)
    requires
        0 <= i <= s.len(),
    ensures
        first_record(s, i) matches Some((nm, d, n)) ==> i < n <= s.len(),
    decreases s.len() - i,
{
    if i < s.len() {
        lemma_line_end_bounds(s, i);
        let e: int = line_end(s, i);
        let n: int = after_line(s, e);
        match candidate_of(s.subrange(i, e)) {
            Option::None => lemma_first_record_advances(s, n),
            Option::Some(c) => if line_record(c) is None {
                lemma_first_record_advances(s, n);
            },
        }
    }
}

/// The record scan steps through the candidate scan: the first record is
/// found by taking candidate lines in turn until one yields a cookie.
pub proof fn lemma_first_record_via_candidate(s: Seq<char>, i: int)
    requires
        0 <= i <= s.len(),
    ensures
        first_record(s, i) == match first_candidate(s, i) {
            Option::None => None::<(Seq<char>, CookieData, int)>,
            Option::Some((c, n)) => match line_record(c) {
                Option::None => first_record(s, n),
                Option::Some((nm, d)) => Some((nm, d, n)),
            },
        },
    decreases s.len() - i,
{
    if i < s.len() {
        lemma_line_end_bounds(s, i);
        let e: int = line_end(s, i);
        let n: int = after_line(s, e);
        if candidate_of(s.subrange(i, e)) is None {
            lemma_first_record_via_candidate(s, n);
        }
    }
}

/// The cookies of the text from `i` on, folded into `m`: each cookie line
/// in turn inserts its record under its name, overwriting an earlier one.
pub open spec fn jar_after(s: Seq<char>, i: int, m: Map<Seq<char>, CookieData>) -> Map<
    Seq<char>,
    CookieData,
>
    decreases s.len() - i,
{
    match first_record(s, i) {
        Option::None => m,
        Option::Some((nm, d, n)) => {
            proof {
                if 0 <= i <= s.len() {
                    lemma_first_record_advances(s, i);
                }
            }
            jar_after(s, n, m.insert(nm, d))
        },
    }
}

/// The empty jar contents.
pub open spec fn no_cookies() -> Map<Seq<char>, CookieData> {
    Map::empty()
}

/// Every cookie of the text, by name.
pub open spec fn cookies_of(s: Seq<char>) -> Map<Seq<char>, CookieData> {
    jar_after(s, 0, Map::<Seq<char>, CookieData>::empty())
}

} // verus!
