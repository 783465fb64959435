//! Rendered message fragments.

use vstd::prelude::*;
use vstd::string::StringExecFns;

verus! {

/// The HTML fragment greeting a successfully signed-in user: a fixed
/// prefix, the user name, and a fixed suffix, concatenated.
pub fn success_message(user: &str) -> (r: String)
    ensures
        r@ == "<div class='message success'>Welcome, <b>"@ + user@ + "</b></div>"@,
{
    let mut s = String::from_str("<div class='message success'>Welcome, <b>");
    s.append(user);
    s.append("</b></div>");
    s
}

} // verus!
