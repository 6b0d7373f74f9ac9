//! The format's guarantees, each stated over the model and proved once
//! and for all.

use vstd::prelude::*;

use crate::model::{
    after_line, candidate_of, cookies_of, first_candidate, first_record, httponly_marker, is_ws,
    jar_after, lemma_first_record_advances, lemma_line_end_bounds, lemma_skip_ws_bounds,
    lemma_token_end_bounds, lemma_trim_end_bounds, line_end, line_record, no_cookies,
    parse_i64_spec, split7, starts_with, token_end, trim_seq, true_field, CookieData,
};

verus! {

/// A line that splits into exactly seven fields yields a record whose
/// name and value are the sixth and seventh fields, exactly as written —
/// the seventh field being the rest of the line, embedded whitespace and
/// all.
pub proof fn lemma_name_value_fields(line: Seq<char>)
    requires
        split7(line).len() == 7,
    ensures
        line_record(line) matches Some((nm, d)) && nm == split7(line)[5] && d.value == split7(
            line,
        )[6],
{
}

/// A seven-field line that starts with the HTTP-only marker yields a
/// record marked HTTP-only whose domain is the first field with the
/// marker stripped.
pub proof fn lemma_httponly_domain(line: Seq<char>)
    requires
        split7(line).len() == 7,
        starts_with(line, httponly_marker()),
    ensures
        line_record(line) matches Some((nm, d)) && d.http_only && d.domain == split7(line)[0].skip(
            10,
        ),
{
    assert(httponly_marker().len() == 10);
    assert(httponly_marker()[0] == '#');
    assert(httponly_marker()[1] == 'H');
    assert(httponly_marker()[2] == 't');
    assert(httponly_marker()[3] == 't');
    assert(httponly_marker()[4] == 'p');
    assert(httponly_marker()[5] == 'O');
    assert(httponly_marker()[6] == 'n');
    assert(httponly_marker()[7] == 'l');
    assert(httponly_marker()[8] == 'y');
    assert(httponly_marker()[9] == '_');
    assert(forall|k: int| 0 <= k < 10 ==> line[k] == #[trigger] httponly_marker()[k]) by {
        assert(forall|k: int|
            0 <= k < 10 ==> line.subrange(0, 10)[k] == #[trigger] httponly_marker()[k]);
    }
    assert(forall|k: int| 0 <= k < 10 ==> !is_ws(#[trigger] line[k])) by {
        assert(forall|k: int| 0 <= k < 10 ==> !is_ws(#[trigger] httponly_marker()[k]));
    }
    let e: int = token_end(line, 0);
    lemma_token_end_bounds(line, 0);
    assert(e >= 10) by {
        if e < 10 {
            assert(is_ws(line[e]));
        }
    }
    let parts0: Seq<char> = split7(line)[0];
    assert(parts0 == line.subrange(0, e));
    assert(parts0.subrange(0, 10) =~= httponly_marker());
    assert(starts_with(parts0, httponly_marker()));
}

/// A comment line — one that starts with `'#'` but not with the
/// HTTP-only marker — is never a candidate: it yields no record and is
/// not even handed to the record builder.
pub proof fn lemma_comment_skipped(line: Seq<char>)
    requires
        line.len() > 0,
        line[0] == '#',
        !starts_with(line, httponly_marker()),
    ensures
        candidate_of(line) is None,
{
}

/// A line of nothing but whitespace — a blank line included — is never a
/// candidate.
pub proof fn lemma_blank_skipped(line: Seq<char>)
    requires
        forall|j: int| 0 <= j < line.len() ==> is_ws(#[trigger] line[j]),
    ensures
        candidate_of(line) is None,
{
    if line.len() > 0 {
        lemma_skip_ws_bounds(line, 0);
        lemma_trim_end_bounds(line, line.len() as int);
        assert(trim_seq(line).len() == 0);
    }
}

/// A line that is no candidate — a comment or a blank — changes nothing:
/// the scan gives the same candidates and the same records as the text
/// just past it.
pub proof fn lemma_skipped_line(s: Seq<char>, i: int)
    requires
        0 <= i < s.len(),
        candidate_of(s.subrange(i, line_end(s, i))) is None,
    ensures
        first_candidate(s, i) == first_candidate(s, after_line(s, line_end(s, i))),
        first_record(s, i) == first_record(s, after_line(s, line_end(s, i))),
{
    lemma_line_end_bounds(s, i);
}

/// A candidate line that does not split into exactly seven fields yields
/// no record.
pub proof fn lemma_wrong_field_count(line: Seq<char>)
    requires
        split7(line).len() != 7,
    ensures
        line_record(line) is None,
{
}

/// A malformed candidate line does not halt the scan: the records found
/// from it on are the records found just past it.
pub proof fn lemma_malformed_no_halt(s: Seq<char>, i: int, c: Seq<char>)
    requires
        0 <= i < s.len(),
        candidate_of(s.subrange(i, line_end(s, i))) == Some(c),
        line_record(c) is None,
    ensures
        first_record(s, i) == first_record(s, after_line(s, line_end(s, i))),
{
    lemma_line_end_bounds(s, i);
}

/// The secure flag is set exactly when the fourth field is the literal
/// `TRUE`; any other field value — `FALSE`, `true`, `1` — leaves it
/// false.
pub proof fn lemma_secure_iff_true(line: Seq<char>)
    requires
        split7(line).len() == 7,
    ensures
        line_record(line) matches Some((nm, d)) && (d.secure <==> split7(line)[3]
            == true_field()),
{
}

/// An expiry field that does not read as an integer leaves the record at
/// the epoch rather than failing it.
pub proof fn lemma_bad_expiry_epoch(line: Seq<char>)
    requires
        split7(line).len() == 7,
        parse_i64_spec(split7(line)[4]) is None,
    ensures
        line_record(line) matches Some((nm, d)) && d.expires == 0,
{
}

/// Two independent passes over the same text agree: the cookies are a
/// function of the text alone, so jars filled by two parses of one text
/// hold element-wise equal contents.
pub proof fn lemma_passes_agree(
    s: Seq<char>,
    m1: Map<Seq<char>, CookieData>,
    m2: Map<Seq<char>, CookieData>,
)
    requires
        m1 == cookies_of(s),
        m2 == cookies_of(s),
    ensures
        m1 == m2,
{
}

/// The last record with a given name in the text from `i` on, if any.
pub open spec fn last_cookie_for(s: Seq<char>, i: int, nm: Seq<char>) -> Option<CookieData>
    decreases s.len() - i,
{
    match first_record(s, i) {
        Option::None => None,
        Option::Some((n2, d, n)) => {
            proof {
                if 0 <= i <= s.len() {
                    lemma_first_record_advances(s, i);
                }
            }
            match last_cookie_for(s, n, nm) {
                Option::Some(d2) => Some(d2),
                Option::None => if n2 == nm {
                    Some(d)
                } else {
                    None
                },
            }
        },
    }
}

/// Duplicate names: the jar's entry for a name is the record of the last
/// line with that name; a name no line carries keeps whatever the jar
/// held before.
pub proof fn lemma_later_line_wins(
    s: Seq<char>,
    i: int,
    m: Map<Seq<char>, CookieData>,
    nm: Seq<char>,
)
    ensures
        match last_cookie_for(s, i, nm) {
            Some(d) => jar_after(s, i, m).contains_key(nm) && jar_after(s, i, m)[nm] == d,
            None => jar_after(s, i, m).contains_key(nm) == m.contains_key(nm) && (m.contains_key(
                nm,
            ) ==> jar_after(s, i, m)[nm] == m[nm]),
        },
    decreases s.len() - i,
{
    match first_record(s, i) {
        Option::None => {},
        Option::Some((n2, d, n)) => {
            lemma_first_record_advances(s, i);
            lemma_later_line_wins(s, n, m.insert(n2, d), nm);
        },
    }
}

/// Over a whole text: a name is in the jar exactly when some line carries
/// it, and its record is the last such line's.
pub proof fn lemma_duplicate_names(s: Seq<char>, nm: Seq<char>)
    ensures
        match last_cookie_for(s, 0, nm) {
            Some(d) => cookies_of(s).contains_key(nm) && cookies_of(s)[nm] == d,
            None => !cookies_of(s).contains_key(nm),
        },
{
    lemma_later_line_wins(s, 0, no_cookies(), nm);
}

} // verus!
