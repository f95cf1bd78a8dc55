//! Validation of store labels.
use vstd::prelude::*;

verus! {

/// A store label that breaks the label rules.
#[derive(Debug)]
pub struct InvalidLabel {
    /// What was labelled: the label's kind, as the caller names it.
    pub kind: String,
    pub label: String,
}

pub open spec fn is_alnum(c: char) -> bool {
    ('a' <= c && c <= 'z') || ('A' <= c && c <= 'Z') || ('0' <= c && c <= '9')
}

/// A character allowed inside a label.
pub open spec fn is_label_inner(c: char) -> bool {
    is_alnum(c) || c == '-' || c == '.' || c == '_'
}

/// A label is non-empty ASCII, starts and ends with a letter or digit, and
/// holds letters, digits, `-`, `.` and `_` in between.
pub open spec fn valid_label(s: Seq<char>) -> bool {
    &&& s.len() > 0
    &&& is_alnum(s[0])
    &&& is_alnum(s[s.len() - 1])
    &&& forall|i: int| 0 < i < s.len() - 1 ==> is_label_inner(#[trigger] s[i])
}

fn byte_is_alnum(b: u8) -> (r: bool)
    ensures
        r == is_alnum(b as char),
{
    (97u8 <= b && b <= 122u8) || (65u8 <= b && b <= 90u8) || (48u8 <= b && b <= 57u8)
}

/// Checks a label against the label rules; `kind` names what it labels.
pub fn validate_label(s: &str, kind: &str) -> (r: Result<(), InvalidLabel>)
    ensures
        r is Ok <==> valid_label(s@),
        r is Err ==> r.unwrap_err().kind@ == kind@ && r.unwrap_err().label@ == s@,
{
    broadcast use vstd::string::is_ascii_spec_bytes;

    if !s.is_ascii() {
        proof {
            if valid_label(s@) {
                assert forall|i: int| 0 <= i < s@.len() implies '\0' <= #[trigger] s@[i] <= '\u{7f}' by {
                    if 0 < i < s@.len() - 1 {
                        assert(is_label_inner(s@[i]));
                    }
                }
                assert(vstd::utf8::is_ascii_chars(s@));
            }
        }
        return Err(InvalidLabel { kind: kind.to_owned(), label: s.to_owned() });
    }
    let b = s.as_bytes();
    assert(b@.len() == s@.len());
    assert(forall|i: int| 0 <= i < b@.len() ==> #[trigger] b@[i] == s@[i] as u8);
    assert(forall|i: int| 0 <= i < b@.len() ==> (#[trigger] b@[i]) as char == s@[i]) by {
        assert forall|i: int| 0 <= i < b@.len() implies (#[trigger] b@[i]) as char == s@[i] by {
            assert('\0' <= s@[i] <= '\u{7f}');
        }
    }
    let n = b.len();
    if n == 0 || !byte_is_alnum(b[0]) || !byte_is_alnum(b[n - 1]) {
        return Err(InvalidLabel { kind: kind.to_owned(), label: s.to_owned() });
    }
    let mut i: usize = 1;
    while i < n - 1
        invariant
            n == b@.len(),
            n == s@.len(),
            1 <= i,
            n >= 1,
            i <= n,
            forall|j: int| 0 <= j < b@.len() ==> (#[trigger] b@[j]) as char == s@[j],
            forall|j: int| 0 < j < i ==> is_label_inner(#[trigger] s@[j]),
        decreases n - i,
    {
        let c = b[i];
        if !(byte_is_alnum(c) || c == 45u8 || c == 46u8 || c == 95u8) {
            return Err(InvalidLabel { kind: kind.to_owned(), label: s.to_owned() });
        }
        i += 1;
    }
    Ok(())
}

} // verus!
