use vstd::prelude::*;

verus! {

/// `String::push` of the standard library: appends `c` to the end of `s`.
#[verifier::external_body]
pub(crate) fn push_char(s: &mut String, c: char)
    ensures
        final(s)@ == old(s)@.push(c),
{
    s.push(c);
}

/// The ASCII upper-case form of `c`: a letter `a`..`z` becomes `A`..`Z`,
/// every other character stays.
pub open spec fn ascii_upper_char(c: char) -> char {
    if 'a' <= c && c <= 'z' {
        ((c as u32) - 32) as char
    } else {
        c
    }
}

/// The ASCII upper-case form of a text, character by character.
pub open spec fn ascii_uppercase(s: Seq<char>) -> Seq<char> {
    s.map_values(|c: char| ascii_upper_char(c))
}

/// Upper-casing maps every letter `a`..`z` to its capital (code 32 lower),
/// which lies in `A`..`Z`, and leaves every other character as it is.
pub proof fn lemma_ascii_upper_char_law(c: char)
    ensures
        'a' <= c <= 'z' ==> ascii_upper_char(c) as u32 == (c as u32) - 32 && 'A' <= ascii_upper_char(
            c,
        ) <= 'Z',
        !('a' <= c <= 'z') ==> ascii_upper_char(c) == c,
        !('a' <= ascii_upper_char(c) <= 'z'),
{
}

/// An upper-cased text has the same length, no ASCII lower-case letter, and
/// each of its characters is the upper-case form of the character at the same
/// place.
pub proof fn lemma_ascii_uppercase_law(s: Seq<char>)
    ensures
        ascii_uppercase(s).len() == s.len(),
        forall|i: int|
            0 <= i < s.len() ==> !('a' <= #[trigger] ascii_uppercase(s)[i] <= 'z'),
        forall|i: int|
            0 <= i < s.len() ==> {
                let c = s[i];
                let u = #[trigger] ascii_uppercase(s)[i];
                &&& 'a' <= c <= 'z' ==> u as u32 == (c as u32) - 32
                &&& !('a' <= c <= 'z') ==> u == c
            },
{
    assert forall|i: int| 0 <= i < s.len() implies !('a' <= #[trigger] ascii_uppercase(s)[i] <= 'z') by {
        lemma_ascii_upper_char_law(s[i]);
    }
    assert forall|i: int| 0 <= i < s.len() implies {
        let c = s[i];
        let u = #[trigger] ascii_uppercase(s)[i];
        &&& 'a' <= c <= 'z' ==> u as u32 == (c as u32) - 32
        &&& !('a' <= c <= 'z') ==> u == c
    } by {
        lemma_ascii_upper_char_law(s[i]);
    }
}

/// Upper-cases one character the way `char::to_ascii_uppercase` does.
pub fn to_ascii_upper_char(c: char) -> (u: char)
    ensures
        u == ascii_upper_char(c),
        'a' <= c <= 'z' ==> u as u32 == (c as u32) - 32,
        !('a' <= c <= 'z') ==> u == c,
{
    if 'a' <= c && c <= 'z' {
        let code: u8 = c as u8;
        (code - 32) as char
    } else {
        c
    }
}

} // verus!
