//! The outside cookie jar. Verified code holds and returns a
//! `cookie::CookieJar` but never looks inside one: everything known of a
//! jar goes through `jar_cookies`, and the two wrappers below say how the
//! jar's own operations change it.

use vstd::prelude::*;

use crate::model::{no_cookies, CookieData};
use crate::record::CookieRecord;

verus! {

/// `cookie::CookieJar`, declared so that it can stand in signatures and
/// fields of verified code.
#[verifier::external_type_specification]
#[verifier::external_body]
pub struct ExCookieJar(cookie::CookieJar);

/// The cookies a jar holds, by cookie name. The jar files cookies under
/// their name alone, so a map keyed by name describes it exactly.
pub uninterp spec fn jar_cookies(j: cookie::CookieJar) -> Map<Seq<char>, CookieData>;

/// Relies on `cookie::CookieJar::new`: a new jar holds no cookies
/// (`jar.iter().count()` is 0 on it, per its documentation and its
/// `Default`-derived empty sets).
#[verifier::external_body]
pub(crate) fn jar_new() -> (j: cookie::CookieJar)
    ensures
        jar_cookies(j) == no_cookies(),
{
    cookie::CookieJar::new()
}

/// Relies on `cookie::CookieJar::add`, which files the cookie under its
/// name and replaces an existing cookie of the same name, and on
/// `cookie::Cookie`'s builder, which stores each attribute as given (the
/// jar's accessor `domain()` strips a leading `.` when reading, but the
/// stored value is the one set here). The expiry is the record's own
/// timestamp where `time::OffsetDateTime::from_unix_timestamp` can
/// represent it — the years -9999 through 9999 — and the epoch otherwise,
/// which is what `CookieRecord::data()` says. None of these calls
/// unwinds: they only build values and allocate, and a failed allocation
/// aborts.
#[verifier::external_body]
pub(crate) fn jar_add(j: &mut cookie::CookieJar, rec: &CookieRecord)
    ensures
        jar_cookies(*final(j)) == jar_cookies(*old(j)).insert(rec.name@, rec.data()),
    no_unwind
{
    let expires = time::OffsetDateTime::from_unix_timestamp(rec.expires).unwrap_or(
        time::OffsetDateTime::UNIX_EPOCH,
    );
    let c = cookie::Cookie::build((rec.name.clone(), rec.value.clone())).domain(
        rec.domain.clone(),
    ).path(rec.path.clone()).secure(rec.secure).http_only(rec.http_only).expires(expires).build();
    j.add(c);
}

} // verus!
