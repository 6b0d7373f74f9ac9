//! Executable text scanning, each function proved against the model:
//! finding line ends, trimming, recognising the HTTP-only marker,
//! splitting a line into fields, and reading the expiry integer.

use vstd::prelude::*;
use vstd::string::*;

use crate::model::{
    all_digits, digit_val, digits_val, fields_from, httponly_marker, is_digit, is_ws,
    lemma_skip_ws_bounds, lemma_token_end_bounds, lemma_trim_end_bounds, line_end, parse_i64_spec,
    skip_ws, split7, starts_with, token_end, trim_end_idx, trim_seq, true_field,
};

verus! {

pub fn is_ws_char(c: char) -> (r: bool)
    ensures
        r == is_ws(c),
{
    c == ' ' || c == '\t' || c == '\n' || c == '\r' || c == '\u{b}' || c == '\u{c}'
}

/// The end of the line that starts at `i`.
pub fn find_line_end(s: &str, i: usize) -> (e: usize)
    requires
        i <= s@.len(),
    ensures
        e as int == line_end(s@, i as int),
        i <= e <= s@.len(),
{
    let n = s.unicode_len();
    let mut j = i;
    while j < n && s.get_char(j) != '\n'
        invariant
            i <= j <= n,
            n == s@.len(),
            line_end(s@, i as int) == line_end(s@, j as int),
        decreases n - j,
    {
        j = j + 1;
    }
    j
}

/// The end of the field that starts at `i`: the first whitespace at or
/// after it.
pub fn find_token_end(s: &str, i: usize) -> (e: usize)
    requires
        i <= s@.len(),
    ensures
        e as int == token_end(s@, i as int),
        i <= e <= s@.len(),
{
    let n = s.unicode_len();
    let mut j = i;
    while j < n && !is_ws_char(s.get_char(j))
        invariant
            i <= j <= n,
            n == s@.len(),
            token_end(s@, i as int) == token_end(s@, j as int),
        decreases n - j,
    {
        j = j + 1;
    }
    j
}

/// The first non-whitespace at or after `i`.
pub fn find_skip_ws(s: &str, i: usize) -> (e: usize)
    requires
        i <= s@.len(),
    ensures
        e as int == skip_ws(s@, i as int),
        i <= e <= s@.len(),
{
    let n = s.unicode_len();
    let mut j = i;
    while j < n && is_ws_char(s.get_char(j))
        invariant
            i <= j <= n,
            n == s@.len(),
            skip_ws(s@, i as int) == skip_ws(s@, j as int),
        decreases n - j,
    {
        j = j + 1;
    }
    j
}

/// The text without leading and trailing whitespace.
pub fn trim_str<'a>(s: &'a str) -> (r: &'a str)
    ensures
        r@ == trim_seq(s@),
{
    let n = s.unicode_len();
    let mut a: usize = 0;
    while a < n && is_ws_char(s.get_char(a))
        invariant
            a <= n,
            n == s@.len(),
            skip_ws(s@, 0) == skip_ws(s@, a as int),
        decreases n - a,
    {
        a = a + 1;
    }
    proof {
        assert(skip_ws(s@, 0) == a as int);
        lemma_trim_end_bounds(s@, s@.len() as int);
    }
    if a == n {
        let r = s.substring_char(0, 0);
        proof {
            assert(r@ =~= trim_seq(s@));
        }
        return r;
    }
    let mut b: usize = n;
    while b > a && is_ws_char(s.get_char(b - 1))
        invariant
            a < b <= n,
            n == s@.len(),
            !is_ws(s@[a as int]),
            trim_end_idx(s@, n as int) == trim_end_idx(s@, b as int),
        decreases b,
    {
        b = b - 1;
    }
    proof {
        assert(trim_end_idx(s@, n as int) == b as int);
        assert(s@.subrange(a as int, b as int) =~= trim_seq(s@));
    }
    s.substring_char(a, b)
}

/// Whether the text starts with the HTTP-only marker `#HttpOnly_`.
pub fn has_httponly_marker(s: &str) -> (r: bool)
    ensures
        r == starts_with(s@, httponly_marker()),
{
    proof {
        assert(httponly_marker().len() == 10);
    }
    let n = s.unicode_len();
    if n < 10 {
        return false;
    }
    let r = s.get_char(0) == '#' && s.get_char(1) == 'H' && s.get_char(2) == 't' && s.get_char(3)
        == 't' && s.get_char(4) == 'p' && s.get_char(5) == 'O' && s.get_char(6) == 'n'
        && s.get_char(7) == 'l' && s.get_char(8) == 'y' && s.get_char(9) == '_';
    proof {
        if r {
            assert(s@.subrange(0, 10) =~= httponly_marker());
        } else {
            if starts_with(s@, httponly_marker()) {
                assert(forall|k: int|
                    0 <= k < 10 ==> s@[k] == #[trigger] httponly_marker()[k]) by {
                    assert(forall|k: int|
                        0 <= k < 10 ==> s@.subrange(0, 10)[k] == #[trigger] httponly_marker()[k]);
                }
                assert(s@[0] == '#' && s@[1] == 'H' && s@[2] == 't' && s@[3] == 't' && s@[4] == 'p'
                    && s@[5] == 'O' && s@[6] == 'n' && s@[7] == 'l' && s@[8] == 'y' && s@[9]
                    == '_');
                assert(false);
            }
        }
    }
    r
}

/// Whether the field is exactly the literal `TRUE`.
pub fn is_true_field(s: &str) -> (r: bool)
    ensures
        r == (s@ == true_field()),
{
    proof {
        assert(true_field().len() == 4);
    }
    let n = s.unicode_len();
    if n != 4 {
        return false;
    }
    let r = s.get_char(0) == 'T' && s.get_char(1) == 'R' && s.get_char(2) == 'U' && s.get_char(3)
        == 'E';
    proof {
        if r {
            assert(s@ =~= true_field());
        } else {
            if s@ == true_field() {
                assert(s@[0] == 'T' && s@[1] == 'R' && s@[2] == 'U' && s@[3] == 'E');
                assert(false);
            }
        }
    }
    r
}

/// The views of a vector of owned fields.
pub open spec fn views_of(v: Seq<String>) -> Seq<Seq<char>> {
    v.map_values(|p: String| p@)
}

/// Split a candidate line into its at most seven fields.
pub fn split_fields(line: &str) -> (parts: Vec<String>)
    requires
        line@.len() > 0,
        !is_ws(line@[0]),
    ensures
        views_of(parts@) == split7(line@),
        parts@.len() <= 7,
{
    let n = line.unicode_len();
    let mut parts: Vec<String> = Vec::new();
    let mut i: usize = 0;
    proof {
        assert(views_of(parts@) + fields_from(line@, 0, 7) =~= fields_from(line@, 0, 7));
    }
    while i < n
        invariant
            i <= n,
            n == line@.len(),
            parts@.len() <= 7,
            parts@.len() == 7 ==> i == n,
            i < n ==> !is_ws(line@[i as int]),
            views_of(parts@) + fields_from(line@, i as int, (7 - parts@.len()) as nat) == split7(
                line@,
            ),
        decreases n - i,
    {
        let ghost prev = parts@;
        let ghost i0 = i as int;
        if parts.len() == 6 {
            let piece = line.substring_char(i, n).to_owned();
            parts.push(piece);
            proof {
                assert(fields_from(line@, i0, 1) =~= seq![line@.subrange(i0, n as int)]);
                assert(views_of(parts@) =~= views_of(prev) + seq![line@.subrange(i0, n as int)]);
                assert(views_of(parts@) + fields_from(line@, n as int, 0) =~= views_of(parts@));
                assert(views_of(parts@) =~= split7(line@));
            }
            i = n;
        } else {
            let e = find_token_end(line, i);
            let piece = line.substring_char(i, e).to_owned();
            parts.push(piece);
            let j = find_skip_ws(line, e);
            proof {
                lemma_token_end_bounds(line@, i0 + 1);
                assert(e as int == token_end(line@, i0 + 1));
                assert(e >= i + 1);
                lemma_skip_ws_bounds(line@, e as int);
                let k: nat = (7 - prev.len()) as nat;
                assert(fields_from(line@, i0, k) == seq![line@.subrange(i0, e as int)]
                    + fields_from(line@, j as int, (k - 1) as nat));
                assert(views_of(parts@) =~= views_of(prev) + seq![line@.subrange(i0, e as int)]);
                assert(views_of(parts@) + fields_from(line@, j as int, (7 - parts@.len()) as nat)
                    =~= views_of(prev) + fields_from(line@, i0, k));
            }
            i = j;
        }
    }
    proof {
        assert(fields_from(line@, n as int, (7 - parts@.len()) as nat) =~= Seq::<
            Seq<char>,
        >::empty());
        assert(views_of(parts@) =~= split7(line@));
    }
    parts
}

pub proof fn lemma_all_digits_drop_last(s: Seq<char>)
    requires
        all_digits(s),
        s.len() > 0,
    ensures
        all_digits(s.drop_last()),
{
    assert(forall|t: int| 0 <= t < s.len() - 1 ==> #[trigger] s.drop_last()[t] == s[t]);
}

pub proof fn lemma_digits_val_nonneg(s: Seq<char>)
    requires
        all_digits(s),
    ensures
        digits_val(s) >= 0,
    decreases s.len(),
{
    if s.len() > 0 {
        lemma_all_digits_drop_last(s);
        lemma_digits_val_nonneg(s.drop_last());
    }
}

/// Appending digits never shrinks the value of a digit run.
pub proof fn lemma_digits_val_prefix(s: Seq<char>, k: int)
    requires
        all_digits(s),
        0 <= k <= s.len(),
    ensures
        digits_val(s.subrange(0, k)) <= digits_val(s),
    decreases s.len(),
{
    if k == s.len() {
        assert(s.subrange(0, k) =~= s);
    } else {
        lemma_all_digits_drop_last(s);
        lemma_digits_val_prefix(s.drop_last(), k);
        assert(s.drop_last().subrange(0, k) =~= s.subrange(0, k));
        lemma_digits_val_nonneg(s.drop_last());
    }
}

/// Read the expiry field as a signed 64-bit decimal integer.
pub fn parse_i64(s: &str) -> (r: Option<i64>)
    ensures
        r is Some <==> parse_i64_spec(s@) is Some,
        r matches Some(x) ==> parse_i64_spec(s@) == Some(x as int),
{
    let n = s.unicode_len();
    if n == 0 {
        return None;
    }
    let c0 = s.get_char(0);
    let has_sign = c0 == '+' || c0 == '-';
    let neg = c0 == '-';
    let start: usize = if has_sign {
        1
    } else {
        0
    };
    let ghost ds: Seq<char> = if has_sign {
        s@.drop_first()
    } else {
        s@
    };
    proof {
        assert(ds =~= s@.subrange(start as int, n as int));
    }
    if start == n {
        return None;
    }
    let mut acc: i128 = 0;
    let mut j = start;
    while j < n
        invariant
            start <= j <= n,
            n == s@.len(),
            n > 0,
            start <= 1,
            has_sign == (s@[0] == '+' || s@[0] == '-'),
            neg == (s@[0] == '-'),
            start == if has_sign { 1int } else { 0int },
            ds == (if has_sign { s@.drop_first() } else { s@ }),
            ds == s@.subrange(start as int, n as int),
            forall|t: int| 0 <= t < j - start ==> is_digit(#[trigger] ds[t]),
            acc == (if neg { -digits_val(ds.subrange(0, j - start)) } else { digits_val(ds.subrange(0, j - start)) }),
            i64::MIN <= acc <= i64::MAX,
        decreases n - j,
    {
        let c = s.get_char(j);
        let u = c as u32;
        if u < 48 || u > 57 {
            proof {
                assert(ds[j - start] == s@[j as int]);
                assert(!is_digit(ds[j - start]));
                assert(!all_digits(ds));
            }
            return None;
        }
        let d: i128 = (u - 48) as i128;
        let next: i128 = if neg {
            acc * 10 - d
        } else {
            acc * 10 + d
        };
        let ghost pre = ds.subrange(0, j - start);
        let ghost ext = ds.subrange(0, j - start + 1);
        proof {
            assert(ext.drop_last() =~= pre);
            assert(ext.last() == ds[j - start]);
            assert(ds[j - start] == s@[j as int]);
            assert(is_digit(ds[j - start]));
            assert(digits_val(ext) == digits_val(pre) * 10 + digit_val(c));
        }
        if next > i64::MAX as i128 || next < i64::MIN as i128 {
            proof {
                if all_digits(ds) {
                    assert(forall|t: int| 0 <= t < ext.len() ==> is_digit(#[trigger] ext[t]));
                    lemma_digits_val_prefix(ds, j - start + 1);
                    lemma_digits_val_nonneg(ext);
                    assert(digits_val(ds) >= digits_val(ext));
                    if neg {
                        assert(-digits_val(ds) <= next < i64::MIN);
                    } else {
                        assert(digits_val(ds) >= next > i64::MAX);
                    }
                }
            }
            return None;
        }
        acc = next;
        j = j + 1;
        proof {
            assert(ds.subrange(0, j - start) =~= ext);
        }
    }
    proof {
        assert(ds.subrange(0, n - start) =~= ds);
        assert(all_digits(ds));
    }
    Some(acc as i64)
}

} // verus!
