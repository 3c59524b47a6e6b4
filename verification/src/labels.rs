//! Labels of the sample points: each label comes in as displayed (quoted and
//! escaped) and is handed out unescaped. The last data row is not a point.
use vstd::prelude::*;

verus! {

/// What `snailquote::unescape` gives for the characters `s`: the unquoted,
/// unescaped text, or `None` where `s` holds an invalid escape.
pub uninterp spec fn unescaped(s: Seq<char>) -> Option<Seq<char>>;

/// Unescapes a displayed label with `snailquote::unescape`, which parses
/// shell-style single- and double-quoted text with backslash escapes inside
/// double quotes; its result depends on the text alone, named `unescaped`.
/// An error (an invalid escape) becomes `None`.
#[verifier::external_body]
fn unescape_label(s: &str) -> (res: Option<String>)
    ensures
        res is Some == unescaped(s@) is Some,
        res matches Some(t) ==> t@ == unescaped(s@)->0,
{
    snailquote::unescape(s).ok()
}

/// The labels of the points: the unescaped labels of all rows but the last.
/// `None` when one of those rows does not unescape.
pub fn point_labels(displayed: &Vec<String>) -> (labels: Option<Vec<String>>)
    requires
        displayed.len() >= 1,
    ensures
        labels is None <==> exists|i: int|
            0 <= i < displayed.len() - 1 && unescaped(#[trigger] displayed@[i]@) is None,
        labels matches Some(l) ==> l.len() == displayed.len() - 1 && forall|i: int|
            0 <= i < l.len() ==> #[trigger] l@[i]@ == unescaped(displayed@[i]@)->0,
{
    let ln = displayed.len() - 1;
    let mut labels: Vec<String> = Vec::new();
    let mut i: usize = 0;
    while i < ln
        invariant
            ln == displayed.len() - 1,
            i <= ln,
            labels.len() == i,
            forall|j: int| 0 <= j < i ==> unescaped(#[trigger] displayed@[j]@) is Some,
            forall|j: int| 0 <= j < i ==> #[trigger] labels@[j]@ == unescaped(displayed@[j]@)->0,
        decreases ln - i,
    {
        match unescape_label(displayed[i].as_str()) {
            Some(label) => {
                labels.push(label);
            },
            None => {
                assert(unescaped(displayed@[i as int]@) is None);
                return None;
            },
        }
        i = i + 1;
    }
    Some(labels)
}

} // verus!
