//! One parsed cookie, fully owned, and how a candidate line becomes one.

use vstd::prelude::*;
use vstd::string::*;

use crate::model::{expiry_stored, httponly_marker, is_ws, line_record, split7, CookieData};
use crate::scan::{has_httponly_marker, is_true_field, parse_i64, split_fields, views_of};

verus! {

/// A cookie read from one line of a cookies.txt text. Every field is an
/// owned copy; nothing refers back to the source text.
pub struct CookieRecord {
    pub name: String,
    pub value: String,
    pub domain: String,
    pub path: String,
    pub secure: bool,
    pub http_only: bool,
    pub expires: i64,
}

impl CookieRecord {
    /// The name the jar files this record under.
    pub open spec fn key(&self) -> Seq<char> {
        self.name@
    }

    /// What the jar keeps of this record.
    pub open spec fn data(&self) -> CookieData {
        CookieData {
            value: self.value@,
            domain: self.domain@,
            path: self.path@,
            secure: self.secure,
            http_only: self.http_only,
            expires: expiry_stored(self.expires as int),
        }
    }
}

/// Build the record of one candidate line, or nothing when the line does
/// not split into exactly seven fields.
pub fn build_record(line: &str) -> (r: Option<CookieRecord>)
    requires
        line@.len() > 0,
        !is_ws(line@[0]),
    ensures
        match line_record(line@) {
            Some((nm, d)) => r matches Some(rec) && rec.key() == nm && rec.data() == d,
            None => r is None,
        },
{
    let parts = split_fields(line);
    proof {
        assert(views_of(parts@).len() == parts@.len());
    }
    if parts.len() != 7 {
        return None;
    }
    proof {
        assert(forall|t: int|
            0 <= t < 7 ==> #[trigger] views_of(parts@)[t] == parts@[t]@);
    }
    let http_only = has_httponly_marker(parts[0].as_str());
    let domain: String = if http_only {
        let l0 = parts[0].as_str().unicode_len();
        proof {
            assert(httponly_marker().len() == 10);
            assert(l0 >= 10);
        }
        let d = parts[0].as_str().substring_char(10, l0).to_owned();
        proof {
            assert(d@ =~= split7(line@)[0].skip(10));
        }
        d
    } else {
        parts[0].clone()
    };
    let expires: i64 = match parse_i64(parts[4].as_str()) {
        Some(v) => v,
        None => 0,
    };
    let secure = is_true_field(parts[3].as_str());
    let rec = CookieRecord {
        name: parts[5].clone(),
        value: parts[6].clone(),
        domain,
        path: parts[2].clone(),
        secure,
        http_only,
        expires,
    };
    proof {
        match line_record(line@) {
            Some((nm, d)) => {
                assert(rec.data() =~= d);
            },
            None => {},
        }
    }
    Some(rec)
}

} // verus!
