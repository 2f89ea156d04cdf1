use crate::text::chars_of;
use url::Url;
use vstd::prelude::*;
use vstd::string::StringExecFns;

verus! {

/// The text of the URL that `relative` names when read against the URL `base`,
/// where both parse.
pub uninterp spec fn url_joined(base: Seq<char>, relative: Seq<char>) -> Option<Seq<char>>;

/// Relies on url::Url::parse and url::Url::join: the URL that `relative` names
/// relative to `base`, serialised, or `None` where either does not parse.
#[verifier::external_body]
fn resolve_url(base: &str, relative: &str) -> (r: Option<String>)
    ensures
        match r {
            Some(s) => url_joined(base@, relative@) == Some(s@),
            None => url_joined(base@, relative@) is None,
        },
{
    match Url::parse(base) {
        Ok(u) => match u.join(relative) {
            Ok(j) => Some(String::from(j)),
            Err(_) => None,
        },
        Err(_) => None,
    }
}

/// Why an address could not be made absolute.
#[derive(PartialEq, Eq, Structural, Clone, Copy, Debug)]
pub enum AddressError {
    /// The base or the relative address does not parse as a URL.
    Unresolvable,
}

/// Whether `s` starts with `p`.
pub open spec fn has_prefix(s: Seq<char>, p: Seq<char>) -> bool {
    s.len() >= p.len() && s.take(p.len() as int) == p
}

/// Whether an address is absolute: it names one of the schemes the browser knows.
pub open spec fn is_absolute(a: Seq<char>) -> bool {
    has_prefix(a, "gemini://"@) || has_prefix(a, "http://"@) || has_prefix(a, "https://"@)
}

/// Whether `s` starts with `p`.
fn starts_with(s: &str, p: &str) -> (r: bool)
    ensures
        r == has_prefix(s@, p@),
{
    let x = chars_of(s);
    let y = chars_of(p);
    if x.len() < y.len() {
        return false;
    }
    let mut i: usize = 0;
    while i < y.len()
        invariant
            x@ == s@,
            y@ == p@,
            y@.len() <= x@.len(),
            i <= y@.len(),
            x@.take(i as int) == y@.take(i as int),
        decreases y@.len() - i,
    {
        if x[i] != y[i] {
            assert(x@.take(y@.len() as int)[i as int] != y@[i as int]);
            return false;
        }
        i = i + 1;
        assert(x@.take(i as int) =~= y@.take(i as int));
    }
    assert(y@.take(i as int) =~= y@);
    true
}

/// The absolute form of `address`: itself where it is absolute already, else
/// resolved against `base_path`.
pub fn handle_address(base_path: &str, address: &str) -> (r: Result<String, AddressError>)
    ensures
        is_absolute(address@) ==> (r matches Ok(s) && s@ == address@),
        !is_absolute(address@) ==> match url_joined(base_path@, address@) {
            Some(j) => r matches Ok(s) && s@ == j,
            None => r == Err::<String, AddressError>(AddressError::Unresolvable),
        },
{
    if starts_with(address, "gemini://") || starts_with(address, "http://") || starts_with(
        address,
        "https://",
    ) {
        let mut s = String::new();
        s.append(address);
        return Ok(s);
    }
    match resolve_url(base_path, address) {
        Some(s) => Ok(s),
        None => Err(AddressError::Unresolvable),
    }
}

} // verus!
