//! The parse loop: a forward-only cursor over the text, feeding candidate
//! lines to the record builder and dropping each record into the jar.

use vstd::prelude::*;
use vstd::string::*;

use crate::jar::{jar_add, jar_cookies, jar_new};
use crate::model::{
    after_line, candidate_of, cookies_of, first_candidate, first_record, jar_after,
    lemma_first_candidate_advances, lemma_first_candidate_trimmed, lemma_first_record_advances,
    lemma_first_record_via_candidate, lemma_line_end_bounds, no_cookies, CookieData,
};
use crate::record::{build_record, CookieRecord};
use crate::scan::{find_line_end, has_httponly_marker, trim_str};

verus! {

/// A one-pass parser over a cookies.txt text: a cursor that only moves
/// forward, and the jar the parsed cookies fall into.
pub struct Parser {
    text: String,
    pos: usize,
    jar: cookie::CookieJar,
}

impl Parser {
    #[verifier::type_invariant]
    spec fn wf(&self) -> bool {
        self.pos <= self.text@.len()
    }

    /// The text being parsed.
    pub closed spec fn text_model(&self) -> Seq<char> {
        self.text@
    }

    /// How far the parser has read.
    pub closed spec fn cursor(&self) -> int {
        self.pos as int
    }

    /// The cookies gathered so far, by name.
    pub closed spec fn jar_model(&self) -> Map<Seq<char>, CookieData> {
        jar_cookies(self.jar)
    }

    /// A fresh parser at the start of the text, with an empty jar.
    pub fn new(text: String) -> (p: Parser)
        ensures
            p.text_model() == text@,
            p.cursor() == 0,
            p.jar_model() == no_cookies(),
    {
        Parser { text, pos: 0, jar: jar_new() }
    }

    /// The next candidate line: comments and blank lines are skipped, the
    /// line comes back trimmed, and the cursor moves past it. `None` once
    /// the text is exhausted.
    pub fn next_cookie_line(&mut self) -> (r: Option<String>)
        ensures
            final(self).text_model() == old(self).text_model(),
            final(self).jar_model() == old(self).jar_model(),
            match first_candidate(old(self).text_model(), old(self).cursor()) {
                Some((c, n)) => (r matches Some(line) && line@ == c) && final(self).cursor() == n,
                None => r is None && final(self).cursor() == final(self).text_model().len(),
            },
    {
        proof {
            use_type_invariant(&*self);
        }
        loop
            invariant
                self.pos <= self.text@.len(),
                self.text@ == old(self).text_model(),
                self.jar == old(self).jar,
                first_candidate(old(self).text_model(), old(self).cursor()) == first_candidate(
                    self.text@,
                    self.pos as int,
                ),
            decreases self.text@.len() - self.pos,
        {
            let ghost s = self.text@;
            let n_total = self.text.as_str().unicode_len();
            if self.pos == n_total {
                return None;
            }
            let i = self.pos;
            let e = find_line_end(self.text.as_str(), i);
            let line_s = self.text.as_str().substring_char(i, e);
            proof {
                lemma_line_end_bounds(s, i as int);
                assert(line_s@ == s.subrange(i as int, e as int));
            }
            let is_comment = if line_s.unicode_len() > 0 {
                line_s.get_char(0) == '#' && !has_httponly_marker(line_s)
            } else {
                false
            };
            let new_pos: usize = if e < n_total {
                e + 1
            } else {
                e
            };
            proof {
                assert(new_pos as int == after_line(s, e as int));
            }
            if is_comment {
                proof {
                    assert(candidate_of(line_s@) is None);
                }
                self.pos = new_pos;
                continue;
            }
            let t = trim_str(line_s);
            if t.unicode_len() == 0 {
                proof {
                    assert(candidate_of(line_s@) is None);
                }
                self.pos = new_pos;
                continue;
            }
            let result = t.to_owned();
            proof {
                assert(candidate_of(line_s@) == Some(t@));
                assert(first_candidate(s, i as int) == Some((t@, new_pos as int)));
            }
            self.pos = new_pos;
            return Some(result);
        }
    }

    /// The next cookie: candidate lines are taken in turn until one
    /// splits into exactly seven fields; malformed lines are skipped.
    /// `None` once the text is exhausted.
    pub fn next_cookie(&mut self) -> (r: Option<CookieRecord>)
        ensures
            final(self).text_model() == old(self).text_model(),
            final(self).jar_model() == old(self).jar_model(),
            match first_record(old(self).text_model(), old(self).cursor()) {
                Some((nm, d, n)) => (r matches Some(rec) && rec.key() == nm && rec.data() == d)
                    && final(self).cursor() == n,
                None => r is None && final(self).cursor() == final(self).text_model().len(),
            },
    {
        proof {
            use_type_invariant(&*self);
        }
        loop
            invariant
                self.pos <= self.text@.len(),
                self.text@ == old(self).text_model(),
                jar_cookies(self.jar) == old(self).jar_model(),
                first_record(old(self).text_model(), old(self).cursor()) == first_record(
                    self.text@,
                    self.pos as int,
                ),
            decreases self.text@.len() - self.pos,
        {
            let ghost s = self.text@;
            let ghost i = self.pos as int;
            proof {
                use_type_invariant(&*self);
                lemma_first_record_via_candidate(s, i);
                lemma_first_candidate_advances(s, i);
                lemma_first_candidate_trimmed(s, i);
            }
            match self.next_cookie_line() {
                None => {
                    return None;
                },
                Some(line) => {
                    match build_record(line.as_str()) {
                        Some(rec) => {
                            return Some(rec);
                        },
                        None => {},
                    }
                },
            }
        }
    }

    /// Parse the rest of the text: every remaining cookie line drops its
    /// record into the jar, a later line overwriting an earlier one of
    /// the same name. Malformed lines are skipped, never an error.
    pub fn parse(&mut self) -> (r: bool)
        ensures
            final(self).text_model() == old(self).text_model(),
            final(self).jar_model() == jar_after(
                old(self).text_model(),
                old(self).cursor(),
                old(self).jar_model(),
            ),
            final(self).cursor() == final(self).text_model().len(),
            r,
    {
        proof {
            use_type_invariant(&*self);
        }
        loop
            invariant
                self.pos <= self.text@.len(),
                self.text@ == old(self).text_model(),
                jar_after(old(self).text_model(), old(self).cursor(), old(self).jar_model())
                    == jar_after(self.text@, self.pos as int, jar_cookies(self.jar)),
            decreases self.text@.len() - self.pos,
        {
            let ghost s = self.text@;
            let ghost i = self.pos as int;
            let ghost m = jar_cookies(self.jar);
            proof {
                use_type_invariant(&*self);
                lemma_first_record_advances(s, i);
            }
            match self.next_cookie() {
                None => {
                    return true;
                },
                Some(rec) => {
                    jar_add(&mut self.jar, &rec);
                },
            }
        }
    }

    /// Hand the jar over; the parser is consumed.
    pub fn cookie_jar(self) -> (j: cookie::CookieJar)
        ensures
            jar_cookies(j) == self.jar_model(),
    {
        self.jar
    }
}

/// Parse a whole cookies.txt text into a jar.
pub fn read_from_text(text: String) -> (j: cookie::CookieJar)
    ensures
        jar_cookies(j) == cookies_of(text@),
{
    let mut parser = Parser::new(text);
    parser.parse();
    parser.cookie_jar()
}

} // verus!
