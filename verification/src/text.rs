//! Texts in texts.
use vstd::prelude::*;
use vstd::string::*;

verus! {

/// Does one text occur in another at this position?
pub open spec fn occurs_at(text: Seq<char>, part: Seq<char>, at: int) -> bool {
    &&& 0 <= at
    &&& at + part.len() <= text.len()
    &&& text.subrange(at, at + part.len()) == part
}

/// Does one text occur in another at this position?
pub fn matches_at(text: &str, part: &str, at: usize) -> (r: bool)
    requires
        at <= text@.len(),
    ensures
        r == occurs_at(text@, part@, at as int),
{
    let n = part.unicode_len();
    let len = text.unicode_len();
    if len - at < n {
        return false;
    }
    let mut i: usize = 0;
    while i < n
        invariant
            i <= n,
            n == part@.len(),
            at + n <= len,
            len == text@.len(),
            forall|j: int| 0 <= j < i ==> text@[at + j] == #[trigger] part@[j],
        decreases n - i,
    {
        if text.get_char(at + i) != part.get_char(i) {
            proof {
                assert(text@.subrange(at as int, at + n)[i as int] != part@[i as int]);
            }
            return false;
        }
        i = i + 1;
    }
    proof {
        assert(text@.subrange(at as int, at + n) =~= part@);
    }
    true
}

/// A text occurs in another at a position exactly when it is found there character
/// by character.
pub proof fn law_occurs_means_each_character(text: Seq<char>, part: Seq<char>, at: int)
    ensures
        occurs_at(text, part, at) <==> {
            &&& 0 <= at
            &&& at + part.len() <= text.len()
            &&& forall|j: int| 0 <= j < part.len() ==> text[at + j] == #[trigger] part[j]
        },
{
    if occurs_at(text, part, at) {
        assert forall|j: int| 0 <= j < part.len() implies text[at + j] == #[trigger] part[j] by {
            assert(text.subrange(at, at + part.len())[j] == part[j]);
        }
    }
    if 0 <= at && at + part.len() <= text.len() && forall|j: int|
        0 <= j < part.len() ==> text[at + j] == #[trigger] part[j] {
        assert(text.subrange(at, at + part.len()) =~= part);
    }
}

} // verus!
