//! Single-component path guards for identifiers that come from callers.
//!
//! A per-user directory is a base directory joined with a user id that originates outside the
//! process. A value like `../other-user`, or an absolute path, would escape the base directory.
//! The identifier is therefore validated as a single, plain path component before it reaches a
//! join, and rejected rather than normalized: rewriting it would hide the attempt.

use crate::text;
use crate::unicode;
use vstd::prelude::*;
use vstd::utf8;

verus! {

/// The longest component, in bytes.
pub const MAX_COMPONENT_BYTES: usize = 128;

/// The rejection, up to what the value was meant to be.
pub const REJECTION_START: &'static str = "invalid ";

/// The rejection, after what the value was meant to be.
pub const REJECTION_END: &'static str =
    ": must be a single plain path component ([A-Za-z0-9._@-], not starting with '.', <=128 bytes)";

/// `A` to `Z`, `a` to `z`, `0` to `9`, dot, underscore, at sign and hyphen.
pub open spec fn is_component_char(c: char) -> bool {
    unicode::is_ascii_alphanumeric(c) || c == '.' || c == '_' || c == '@' || c == '-'
}

/// A text of 1 to 128 bytes, all of them component characters, that does not start with a dot.
pub open spec fn is_plain_component(value: Seq<char>) -> bool {
    &&& value.len() > 0
    &&& text::utf8_len(value) <= MAX_COMPONENT_BYTES
    &&& value[0] != '.'
    &&& forall|i: int| 0 <= i < value.len() ==> is_component_char(#[trigger] value[i])
}

/// The message with which a value is rejected.
pub open spec fn rejection(what: Seq<char>) -> Seq<char> {
    REJECTION_START@ + what + REJECTION_END@
}

/// Accepts a non-empty text of at most 128 bytes drawn from `[A-Za-z0-9._@-]` that does not start
/// with a dot: a leading dot names hidden files and the special entries `.` and `..`. What is
/// accepted is returned as it came; the error names `what` the value was meant to be.
pub fn sanitize_component<'a>(value: &'a str, what: &str) -> (r: Result<&'a str, String>)
    ensures
        r is Ok <==> is_plain_component(value@),
        r matches Ok(same) ==> same == value,
        r matches Err(message) ==> message@ == rejection(what@),
{
    let chars = text::chars_of(value);
    let mut ok = chars.len() > 0 && text::byte_len(value) <= MAX_COMPONENT_BYTES && chars[0] != '.';
    let mut i: usize = 0;
    while ok && i < chars.len()
        invariant
            i <= chars.len(),
            chars@ == value@,
            ok ==> value@.len() > 0 && text::utf8_len(value@) <= MAX_COMPONENT_BYTES && value@[0]
                != '.' && forall|j: int| 0 <= j < i ==> is_component_char(#[trigger] value@[j]),
            !ok ==> !is_plain_component(value@),
        decreases chars.len() - i,
    {
        let c = chars[i];
        assert(c == value@[i as int]);
        ok = ('0' <= c && c <= '9') || ('A' <= c && c <= 'Z') || ('a' <= c && c <= 'z') || c == '.'
            || c == '_' || c == '@' || c == '-';
        i += 1;
    }
    if ok {
        Ok(value)
    } else {
        let mut message = REJECTION_START.to_string();
        message.append(what);
        message.append(REJECTION_END);
        Err(message)
    }
}

/// An accepted component cannot leave the directory it is joined to: it holds no separator and no
/// NUL, it is neither `.` nor `..`, and the joined path has exactly the base's components and the
/// accepted one, as it is, below them.
pub proof fn law_component_stays_below_its_base(base: Seq<char>, value: Seq<char>)
    requires
        is_plain_component(value),
    ensures
        !value.contains('/'),
        !value.contains('\\'),
        !value.contains('\0'),
        value != "."@,
        value != ".."@,
        text::split_on(base + seq!['/'] + value, '/') == text::split_on(base, '/').push(value),
{
    reveal_strlit(".");
    reveal_strlit("..");
    assert forall|c: char| c == '/' || c == '\\' || c == '\0' implies !value.contains(c) by {
        if value.contains(c) {
            let k = choose|k: int| 0 <= k < value.len() && value[k] == c;
            assert(is_component_char(value[k]));
        }
    }
    assert(value[0] != '.');
    text::lemma_split_single(value, '/');
    text::lemma_split_joined(base, value, '/');
    assert(text::split_on(base, '/') + seq![value] =~= text::split_on(base, '/').push(value));
}

/// Every text of 1 to 128 characters, each of them a letter from `A` to `Z` or `a` to `z`, a digit or
/// one of `.`, `_`, `@` and `-`, is accepted if it does not start with a dot.
pub proof fn law_plain_components_are_accepted(value: Seq<char>)
    requires
        1 <= value.len() <= 128,
        value[0] != '.',
        forall|i: int|
            0 <= i < value.len() ==> {
                ||| 'A' <= #[trigger] value[i] <= 'Z'
                ||| 'a' <= value[i] <= 'z'
                ||| '0' <= value[i] <= '9'
                ||| value[i] == '.'
                ||| value[i] == '_'
                ||| value[i] == '@'
                ||| value[i] == '-'
            },
    ensures
        is_plain_component(value),
{
    assert(utf8::is_ascii_chars(value));
    utf8::is_ascii_chars_encode_utf8(value);
}

/// Nothing else is accepted: what is has 1 to 128 characters, starts with no dot, and holds no
/// character but those letters, digits and signs.
pub proof fn law_nothing_else_is_accepted(value: Seq<char>)
    requires
        is_plain_component(value),
    ensures
        1 <= value.len() <= 128,
        value[0] != '.',
        forall|i: int|
            0 <= i < value.len() ==> {
                ||| 'A' <= #[trigger] value[i] <= 'Z'
                ||| 'a' <= value[i] <= 'z'
                ||| '0' <= value[i] <= '9'
                ||| value[i] == '.'
                ||| value[i] == '_'
                ||| value[i] == '@'
                ||| value[i] == '-'
            },
{
    assert forall|i: int| 0 <= i < value.len() implies '\0' <= #[trigger] value[i] <= '\u{7f}' by {
        assert(is_component_char(value[i]));
    }
    assert(utf8::is_ascii_chars(value));
    utf8::is_ascii_chars_encode_utf8(value);
}

/// A component cut anywhere but before a dot, and two components put together within the bound, are
/// components.
pub proof fn law_components_can_be_cut_and_joined(a: Seq<char>, b: Seq<char>)
    requires
        a.len() > 0,
        b.len() > 0,
        a.len() + b.len() <= 128,
        b[0] != '.',
    ensures
        is_plain_component(a + b) <==> is_plain_component(a) && is_plain_component(b),
{
    let s = a + b;
    if is_plain_component(s) {
        law_nothing_else_is_accepted(s);
        assert forall|i: int| 0 <= i < a.len() implies is_component_char(#[trigger] a[i]) by {
            assert(is_component_char(s[i]));
        }
        assert forall|i: int| 0 <= i < b.len() implies is_component_char(#[trigger] b[i]) by {
            assert(is_component_char(s[a.len() + i]));
        }
        assert(a[0] == s[0]);
        law_plain_components_are_accepted(a);
        law_plain_components_are_accepted(b);
    }
    if is_plain_component(a) && is_plain_component(b) {
        assert forall|i: int| 0 <= i < s.len() implies is_component_char(#[trigger] s[i]) by {
            if i < a.len() {
                assert(is_component_char(a[i]));
            } else {
                assert(is_component_char(b[i - a.len()]));
            }
        }
        assert(a[0] == s[0]);
        law_plain_components_are_accepted(s);
    }
}

/// A rejection is the same for every value, and names what the value was meant to be.
pub proof fn law_rejection_names_what_was_meant(what: Seq<char>)
    ensures
        rejection(what) == "invalid "@ + what
            + ": must be a single plain path component ([A-Za-z0-9._@-], not starting with '.', <=128 bytes)"@,
{
}

} // verus!
