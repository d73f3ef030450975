//! Which GPU adapter a user's choice names.
//!
//! The sieve itself runs on a device and lives with its host; what is pure is
//! the rule for picking the device, which is tested without one.
use vstd::prelude::*;

use crate::cvg::emit::{trim, trimmed};
use crate::text::{chars_of, parse_usize, parsed_usize};

verus! {

/// What `str::to_lowercase` makes of `text`.
pub uninterp spec fn lowercase(text: Seq<char>) -> Seq<char>;

/// `str::to_lowercase`: each character replaced by its Unicode lowercase
/// mapping. The contract claims only that the result is a function of the
/// text, named [`lowercase`]; the mapping's table is Unicode's.
#[verifier::external_body]
fn to_lowercase(text: &str) -> (lower: String)
    ensures
        lower@ == lowercase(text@),
{
    text.to_lowercase()
}

/// `needle` occurs in `haystack` as a run of consecutive characters; the
/// empty text occurs everywhere.
pub open spec fn contains_text(haystack: Seq<char>, needle: Seq<char>) -> bool {
    exists|i: int| 0 <= i <= haystack.len() - needle.len() && #[trigger] haystack.subrange(i, i + needle.len()) == needle
}

/// [`contains_text`]: `str::contains` for a text pattern.
fn contains(haystack: &str, needle: &str) -> (found: bool)
    ensures
        found == contains_text(haystack@, needle@),
{
    let h = chars_of(haystack);
    let n = chars_of(needle);
    let hl = h.len();
    let nl = n.len();
    if nl > hl {
        return false;
    }
    let mut i: usize = 0;
    while i <= hl - nl
        invariant
            hl == h@.len(),
            nl == n@.len(),
            h@ == haystack@,
            n@ == needle@,
            n@.len() <= h@.len(),
            i <= h@.len() - n@.len() + 1,
            forall|k: int| 0 <= k < i ==> #[trigger] h@.subrange(k, k + n@.len()) != n@,
        decreases h@.len() - n@.len() + 1 - i,
    {
        let mut j: usize = 0;
        while j < nl && h[i + j] == n[j]
            invariant
                hl == h@.len(),
                nl == n@.len(),
                n@.len() <= h@.len(),
                i <= h@.len() - n@.len(),
                j <= n@.len(),
                forall|t: int| 0 <= t < j ==> h@[i + t] == n@[t],
            decreases n@.len() - j,
        {
            j += 1;
        }
        if j == nl {
            proof {
                assert(h@.subrange(i as int, i + n@.len()) =~= n@);
            }
            return true;
        }
        proof {
            assert(h@.subrange(i as int, i + n@.len())[j as int] != n@[j as int]);
        }
        i += 1;
    }
    proof {
        assert forall|k: int| 0 <= k <= haystack@.len() - needle@.len() implies #[trigger] haystack@.subrange(
            k,
            k + needle@.len(),
        ) != needle@ by {
            assert(h@.subrange(k, k + n@.len()) != n@);
        }
    }
    false
}

/// Whether `choice` names the adapter at `index` called `name` on
/// `backend`: trimmed, a number is an index and nothing else; otherwise it
/// names an adapter whose name contains it, or whose backend it is, both
/// regardless of case.
pub open spec fn names_adapter(choice: Seq<char>, index: usize, name: Seq<char>, backend: Seq<char>) -> bool {
    let choice = trimmed(choice);
    match parsed_usize(choice) {
        Some(wanted) => wanted == index,
        None => contains_text(lowercase(name), lowercase(choice)) || lowercase(backend) == lowercase(choice),
    }
}

/// [`names_adapter`].
pub fn matches(choice: &str, index: usize, name: &str, backend: &str) -> (chosen: bool)
    ensures
        chosen == names_adapter(choice@, index, name@, backend@),
{
    let choice = trim(choice);
    match parse_usize(choice.as_str()) {
        Some(wanted) => wanted == index,
        None => {
            let wanted = to_lowercase(choice.as_str());
            let name = to_lowercase(name);
            let backend = to_lowercase(backend);
            contains(name.as_str(), wanted.as_str()) || crate::text::same_text(backend.as_str(), wanted.as_str())
        },
    }
}

} // verus!
