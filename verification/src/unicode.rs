//! What the standard library knows of Unicode: lower case, the alphanumeric
//! characters, and the quoted form of a text.

use vstd::prelude::*;
use vstd::utf8::is_ascii_chars;

verus! {

/// What `str::to_lowercase` gives for a text that is not ASCII.
pub uninterp spec fn unicode_lowercase(s: Seq<char>) -> Seq<char>;

/// What `char::is_alphanumeric` gives for a character that is not ASCII.
pub uninterp spec fn unicode_alphanumeric(c: char) -> bool;

/// What the formatting `{:?}` gives for a text that is not plain.
pub uninterp spec fn escaped(s: Seq<char>) -> Seq<char>;

/// What `char::to_uppercase` gives for a character that is not ASCII, as a text.
pub uninterp spec fn unicode_uppercase(c: char) -> Seq<char>;

/// The text `s` in lower case.
pub open spec fn lowercase(s: Seq<char>) -> Seq<char> {
    if is_ascii_chars(s) {
        ascii_lower(s)
    } else {
        unicode_lowercase(s)
    }
}

/// `c` is alphabetic or numeric.
pub open spec fn alphanumeric(c: char) -> bool {
    if c <= '\u{7f}' {
        ascii_alphanumeric(c)
    } else {
        unicode_alphanumeric(c)
    }
}

/// The text `s` between double quotes, with what is not plain escaped.
pub open spec fn quoted(s: Seq<char>) -> Seq<char> {
    if plain(s) {
        seq!['"'] + s + seq!['"']
    } else {
        escaped(s)
    }
}

/// `c` in upper case, which can be more than one character.
pub open spec fn uppercase(c: char) -> Seq<char> {
    if c <= '\u{7f}' {
        seq![ascii_upper_char(c)]
    } else {
        unicode_uppercase(c)
    }
}

/// `c` in lower case, where `c` is an ASCII letter.
pub open spec fn ascii_lower_char(c: char) -> char {
    if 'A' <= c <= 'Z' {
        (c as nat + 32) as char
    } else {
        c
    }
}

/// `c` in upper case, where `c` is an ASCII letter.
pub open spec fn ascii_upper_char(c: char) -> char {
    if 'a' <= c <= 'z' {
        (c as nat - 32) as char
    } else {
        c
    }
}

/// `s` with its ASCII letters in lower case.
pub open spec fn ascii_lower(s: Seq<char>) -> Seq<char> {
    Seq::new(s.len(), |i: int| ascii_lower_char(s[i]))
}

/// `c` is an ASCII letter or digit.
pub open spec fn ascii_alphanumeric(c: char) -> bool {
    'a' <= c <= 'z' || 'A' <= c <= 'Z' || '0' <= c <= '9'
}

/// `s` holds only characters that quoting leaves as they are: printable ASCII
/// other than the double quote and the backslash.
pub open spec fn plain(s: Seq<char>) -> bool {
    forall|i: int|
        0 <= i < s.len() ==> ' ' <= #[trigger] s[i] <= '~' && s[i] != '"' && s[i] != '\\'
}

/// `str::to_lowercase` gives the text in lower case; on ASCII it changes the
/// letters `A` to `Z` and nothing else. What it gives elsewhere is
/// `unicode_lowercase`.
#[verifier::external_body]
pub(crate) fn to_lowercase(s: &str) -> (r: String)
    ensures
        r@ == if is_ascii_chars(s@) {
            ascii_lower(s@)
        } else {
            unicode_lowercase(s@)
        },
{
    s.to_lowercase()
}

/// `char::is_alphanumeric` tells whether a character is alphabetic or numeric
/// in Unicode; on ASCII these are the letters and the digits. What it gives
/// elsewhere is `unicode_alphanumeric`.
#[verifier::external_body]
pub(crate) fn is_alphanumeric(c: char) -> (r: bool)
    ensures
        r == if c <= '\u{7f}' {
            ascii_alphanumeric(c)
        } else {
            unicode_alphanumeric(c)
        },
{
    c.is_alphanumeric()
}

/// `char::to_uppercase` gives the upper case of a character, which can be more
/// than one character; on ASCII it changes the letters `a` to `z` and nothing
/// else. What it gives elsewhere is `unicode_uppercase`.
#[verifier::external_body]
pub(crate) fn to_uppercase(c: char) -> (r: String)
    ensures
        r@ == if c <= '\u{7f}' {
            seq![ascii_upper_char(c)]
        } else {
            unicode_uppercase(c)
        },
{
    c.to_uppercase().to_string()
}

/// The formatting `{:?}` of a text puts it between double quotes and escapes
/// what is not plain. What it gives for texts that are not plain is `escaped`.
#[verifier::external_body]
pub(crate) fn quote(s: &str) -> (r: String)
    ensures
        r@ == if plain(s@) {
            seq!['"'] + s@ + seq!['"']
        } else {
            escaped(s@)
        },
{
    format!("{:?}", s)
}

// ---------------------------------------------------------------------------
// Laws
// ---------------------------------------------------------------------------

/// Lower case keeps the length of an ASCII text, makes a small letter of each
/// capital, and leaves every other character.
pub proof fn lemma_ascii_lowercase(s: Seq<char>)
    requires
        is_ascii_chars(s),
    ensures
        lowercase(s).len() == s.len(),
        forall|k: int|
            0 <= k < s.len() ==> (#[trigger] lowercase(s)[k]) as nat == if 65 <= s[k] as nat
                && s[k] as nat <= 90 {
                s[k] as nat + 32
            } else {
                s[k] as nat
            },
{
    assert forall|k: int| 0 <= k < s.len() implies (#[trigger] lowercase(s)[k]) as nat == if 65
        <= s[k] as nat && s[k] as nat <= 90 {
        s[k] as nat + 32
    } else {
        s[k] as nat
    } by {
        assert(lowercase(s)[k] == ascii_lower_char(s[k]));
    }
}

/// Of the ASCII characters, the letters and the digits are alphanumeric, by their
/// numbers.
pub proof fn lemma_ascii_alphanumeric(c: char)
    requires
        c as nat <= 127,
    ensures
        alphanumeric(c) <==> 48 <= c as nat <= 57 || 65 <= c as nat <= 90 || 97 <= c as nat <= 122,
        97 <= c as nat <= 122 ==> uppercase(c).len() == 1 && uppercase(c)[0] as nat == c as nat
            - 32,
        !(97 <= c as nat <= 122) ==> uppercase(c) == seq![c],
{
}

/// A text of printable ASCII without a double quote and a backslash is quoted by a
/// double quote on either side.
pub proof fn lemma_quoted(s: Seq<char>)
    requires
        forall|k: int|
            0 <= k < s.len() ==> ' ' <= #[trigger] s[k] <= '~' && s[k] != '"' && s[k] != '\\',
    ensures
        quoted(s) == seq!['"'] + s + seq!['"'],
{
}

} // verus!
