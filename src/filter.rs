//! Selection of services by `only` / `skip` lists.
use vstd::prelude::*;
use crate::error::ToolError;
use crate::text::text_eq;
use vstd::string::StrSliceExecFns;

verus! {

/// `c` has the Unicode `White_Space` property.
pub open spec fn whitespace_of(c: char) -> bool {
    let u = c as u32;
    (0x9 <= u <= 0xD) || u == 0x20 || u == 0x85 || u == 0xA0 || u == 0x1680 || (0x2000 <= u <= 0x200A)
        || u == 0x2028 || u == 0x2029 || u == 0x202F || u == 0x205F || u == 0x3000
}

/// Relies on `char::is_whitespace`: whether `c` has the Unicode
/// `White_Space` property.
#[verifier::external_body]
fn is_whitespace(c: char) -> (r: bool)
    ensures
        r == whitespace_of(c),
{
    c.is_whitespace()
}

/// `s` holds nothing but white space (an empty string included).
pub open spec fn is_blank(s: Seq<char>) -> bool {
    forall|i: int| 0 <= i < s.len() ==> whitespace_of(#[trigger] s[i])
}

/// Some entry of `list` is the name `name`.
pub open spec fn lists(list: Seq<String>, name: Seq<char>) -> bool {
    exists|k: int| 0 <= k < list.len() && (#[trigger] list[k])@ == name
}

/// Some entry of `list` is blank.
pub open spec fn has_blank(list: Seq<String>) -> bool {
    exists|k: int| 0 <= k < list.len() && is_blank((#[trigger] list[k])@)
}

/// The name `name` passes the `only` and `skip` lists.
pub open spec fn selected(only: Option<Vec<String>>, skip: Option<Vec<String>>, name: Seq<char>) -> bool {
    &&& (only matches Some(o) ==> lists(o@, name))
    &&& (skip matches Some(k) ==> !lists(k@, name))
}

/// The error, if any, that `only` and `skip` given together call for.
pub open spec fn filter_error(only: Option<Vec<String>>, skip: Option<Vec<String>>) -> Option<ToolError> {
    if only is Some && skip is Some {
        Some(ToolError::ConflictingFilters)
    } else if (only matches Some(o) && has_blank(o@)) || (skip matches Some(k) && has_blank(k@)) {
        Some(ToolError::EmptyServiceName)
    } else {
        None
    }
}

/// Giving both `only` and `skip` is a configuration error, whatever they hold.
pub proof fn lemma_conflicting_filters(only: Option<Vec<String>>, skip: Option<Vec<String>>)
    requires
        only is Some,
        skip is Some,
    ensures
        filter_error(only, skip) == Some(ToolError::ConflictingFilters),
        crate::error::kind_of(ToolError::ConflictingFilters) == crate::error::ErrorKind::Configuration,
{
}

/// True iff `s` is blank.
pub fn blank(s: &str) -> (r: bool)
    ensures
        r == is_blank(s@),
{
    let n = s.unicode_len();
    let mut i: usize = 0;
    while i < n
        invariant
            n == s@.len(),
            i <= n,
            forall|k: int| 0 <= k < i ==> whitespace_of(#[trigger] s@[k]),
        decreases n - i,
    {
        if !is_whitespace(s.get_char(i)) {
            return false;
        }
        i += 1;
    }
    true
}

/// True iff some entry of `list` is blank.
fn any_blank(list: &Vec<String>) -> (r: bool)
    ensures
        r == has_blank(list@),
{
    let mut i: usize = 0;
    while i < list.len()
        invariant
            i <= list.len(),
            forall|k: int| 0 <= k < i ==> !is_blank((#[trigger] list@[k])@),
        decreases list.len() - i,
    {
        if blank(list[i].as_str()) {
            return true;
        }
        i += 1;
    }
    false
}

/// True iff some entry of `list` is `name`.
pub fn contains_name(list: &Vec<String>, name: &str) -> (r: bool)
    ensures
        r == lists(list@, name@),
{
    let mut i: usize = 0;
    while i < list.len()
        invariant
            i <= list.len(),
            forall|k: int| 0 <= k < i ==> (#[trigger] list@[k])@ != name@,
        decreases list.len() - i,
    {
        if text_eq(list[i].as_str(), name) {
            return true;
        }
        i += 1;
    }
    false
}

/// Checks a pair of filter lists: they may not both be given, and no entry
/// may be blank.
pub fn check_filters(only: &Option<Vec<String>>, skip: &Option<Vec<String>>) -> (r: Result<(), ToolError>)
    ensures
        match filter_error(*only, *skip) {
            Some(e) => r == Err::<(), ToolError>(e),
            None => r is Ok,
        },
{
    if only.is_some() && skip.is_some() {
        return Err(ToolError::ConflictingFilters);
    }
    if let Some(o) = only {
        if any_blank(o) {
            return Err(ToolError::EmptyServiceName);
        }
    }
    if let Some(k) = skip {
        if any_blank(k) {
            return Err(ToolError::EmptyServiceName);
        }
    }
    Ok(())
}

/// True iff `name` passes the `only` and `skip` lists.
pub fn passes(only: &Option<Vec<String>>, skip: &Option<Vec<String>>, name: &str) -> (r: bool)
    ensures
        r == selected(*only, *skip, name@),
{
    if let Some(o) = only {
        if !contains_name(o, name) {
            return false;
        }
    }
    if let Some(k) = skip {
        if contains_name(k, name) {
            return false;
        }
    }
    true
}

} // verus!
