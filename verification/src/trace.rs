//! Whether diagnostics are switched on.

use crate::text::chars_of;
use crate::text::occurs_at;
use vstd::prelude::*;

verus! {

/// `needle` occurs somewhere in `hay`.
pub open spec fn holds_text(hay: Seq<char>, needle: Seq<char>) -> bool {
    exists|at: int| occurs_at(hay, needle, at)
}

/// The value of the debug setting switches diagnostics on: it is `*`, `1` or
/// `true`, or it names this tool.
pub open spec fn enables_tracing(value: Option<Seq<char>>) -> bool {
    match value {
        None => false,
        Some(text) => text == "*"@ || text == "1"@ || text == "true"@ || holds_text(
            text,
            "tailwind"@,
        ),
    }
}

fn occurs(hay: &Vec<char>, needle: &Vec<char>, at: usize) -> (r: bool)
    requires
        at + needle@.len() <= hay@.len(),
    ensures
        r == occurs_at(hay@, needle@, at as int),
{
    let len = hay.len();
    let mut k: usize = 0;
    while k < needle.len()
        invariant
            k <= needle@.len(),
            len == hay@.len(),
            at + needle@.len() <= len,
            forall|j: int| 0 <= j < k ==> hay@[at + j] == needle@[j],
        decreases needle@.len() - k,
    {
        if hay[at + k] != needle[k] {
            assert(hay@.subrange(at as int, at + needle@.len())[k as int] == hay@[at + k]);
            return false;
        }
        k += 1;
    }
    assert(hay@.subrange(at as int, at + needle@.len()) =~= needle@);
    true
}

/// Whether `needle` occurs somewhere in `hay`.
pub fn contains_text(hay: &Vec<char>, needle: &Vec<char>) -> (r: bool)
    ensures
        r == holds_text(hay@, needle@),
{
    if needle.len() > hay.len() {
        return false;
    }
    let last = hay.len() - needle.len();
    let mut at: usize = 0;
    loop
        invariant
            at <= last,
            last == hay@.len() - needle@.len(),
            forall|j: int| 0 <= j < at ==> !occurs_at(hay@, needle@, j),
        decreases last - at,
    {
        if occurs(hay, needle, at) {
            return true;
        }
        if at == last {
            return false;
        }
        at += 1;
    }
}

/// Decides from the value of the debug setting, if it is set, whether
/// diagnostics are switched on.
pub fn should_trace(value: Option<&str>) -> (r: bool)
    ensures
        r == enables_tracing(
            match value {
                Some(text) => Some(text@),
                None => None,
            },
        ),
{
    match value {
        None => false,
        Some(text) => {
            let chars = chars_of(text);
            let name = chars_of("tailwind");
            proof {
                reveal_strlit("*");
                reveal_strlit("1");
                reveal_strlit("true");
            }
            let n = chars.len();
            let star = n == 1 && chars[0] == '*';
            let one = n == 1 && chars[0] == '1';
            let yes = n == 4 && chars[0] == 't' && chars[1] == 'r' && chars[2] == 'u' && chars[3]
                == 'e';
            assert(star == (text@ == "*"@)) by {
                if star {
                    assert(text@ =~= "*"@);
                }
            }
            assert(one == (text@ == "1"@)) by {
                if one {
                    assert(text@ =~= "1"@);
                }
            }
            assert(yes == (text@ == "true"@)) by {
                if yes {
                    assert(text@ =~= "true"@);
                }
            }
            star || one || yes || contains_text(&chars, &name)
        },
    }
}

} // verus!
