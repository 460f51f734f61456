//! Helpers shared with code-generating front ends: normalizing raw
//! identifiers and naming the attribute namespaces they target.

use vstd::prelude::*;

verus! {

/// Which attribute namespace a generated property targets.
#[derive(Clone, Copy, PartialEq, Eq, Structural, Debug)]
pub enum AttributeBase {
    Html,
    Svg,
}

/// The name with a leading raw-identifier marker removed: `r#type`
/// names the identifier `type`.
pub open spec fn spec_strip_raw_ident_prefix(s: Seq<char>) -> Seq<char> {
    if s.len() >= 2 && s.subrange(0, 2) == "r#"@ {
        s.skip(2)
    } else {
        s
    }
}

/// Relies on `str::starts_with`: true exactly when the string begins
/// with the two characters `r#`.
#[verifier::external_body]
fn has_raw_prefix(s: &String) -> (r: bool)
    ensures
        r == (s@.len() >= 2 && s@.subrange(0, 2) == "r#"@),
{
    s.as_str().starts_with("r#")
}

/// Relies on `str` range indexing and `str::to_string`: the characters
/// after the two-character ASCII prefix `r#` (each one byte long, so
/// the byte index two is that character boundary).
#[verifier::external_body]
fn after_raw_prefix(s: &String) -> (r: String)
    requires
        s@.len() >= 2,
        s@.subrange(0, 2) == "r#"@,
    ensures
        r@ == s@.skip(2),
{
    s.as_str()[2..].to_string()
}

/// Removes the raw-identifier prefix from a name, if present; any
/// other name comes back unchanged.
pub fn strip_raw_ident_prefix(name: String) -> (r: String)
    ensures
        r@ == spec_strip_raw_ident_prefix(name@),
{
    if has_raw_prefix(&name) {
        after_raw_prefix(&name)
    } else {
        name
    }
}

} // verus!
