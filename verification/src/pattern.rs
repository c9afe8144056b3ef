//! Regular expressions on texts.

use vstd::prelude::*;
use crate::text::{
    append2, contains_text, lemma_missing_char, lemma_rfind, occurs_at, prefix, rfind, rfind_text,
    starts_with, starts_with_text, suffix,
};

verus! {

/// What `regex::Regex::new(pattern)` and then `is_match(text)` give: nothing
/// where `pattern` does not compile, and otherwise whether it matches `text`
/// somewhere.
pub uninterp spec fn regex_outcome(pattern: Seq<char>, text: Seq<char>) -> Option<bool>;

/// `regex::Regex::new` compiles `pattern` or reports an error, and
/// `regex::Regex::is_match` tells whether the compiled pattern matches
/// somewhere in `text`. Both depend on their arguments alone; what they give is
/// `regex_outcome`. The syntax and the matching of the patterns are not stated.
#[verifier::external_body]
pub(crate) fn regex_search(pattern: &str, text: &str) -> (r: Option<bool>)
    ensures
        r == regex_outcome(pattern@, text@),
{
    match regex::Regex::new(pattern) {
        Ok(re) => Some(re.is_match(text)),
        Err(_) => None,
    }
}

/// The pattern that `/pattern/flags` asks for: the part up to the last slash,
/// taken without regard to case where the flags hold an `i`.
pub open spec fn slashed_pattern(s: Seq<char>) -> Option<Seq<char>> {
    if starts_with(s, "/"@) {
        match rfind(s.skip(1), "/"@) {
            Some(p) => {
                let pattern = s.skip(1).take(p);
                let flags = s.skip(1).skip(p + 1);
                if crate::text::contains(flags, "i"@) {
                    Some("(?i)"@ + pattern)
                } else {
                    Some(pattern)
                }
            },
            None => None,
        }
    } else {
        None
    }
}

/// The pattern that `/pattern/flags` asks for.
pub fn parse_slashed_pattern(s: &str) -> (r: Option<String>)
    ensures
        crate::text::opt_text(r) == slashed_pattern(s@),
{
    proof {
        reveal_strlit("/");
    }
    if !starts_with_text(s, "/") {
        return None;
    }
    let body = suffix(s, 1);
    match rfind_text(body, "/") {
        Some(p) => {
            let pattern = prefix(body, p);
            let flags = suffix(body, p + 1);
            if contains_text(flags, "i") {
                Some(append2("(?i)", pattern))
            } else {
                Some(pattern.to_owned())
            }
        },
        None => None,
    }
}

/// Whether one of the outcomes is a match.
pub fn some_match(outcomes: &Vec<Option<bool>>) -> (r: bool)
    ensures
        r == outcomes@.contains(Some(true)),
{
    for i in 0..outcomes.len()
        invariant
            forall|j: int| 0 <= j < i ==> outcomes@[j] != Some(true),
    {
        if let Some(b) = outcomes[i] {
            if b {
                assert(outcomes@[i as int] == Some(true));
                return true;
            }
        }
    }
    false
}

// ---------------------------------------------------------------------------
// Laws
// ---------------------------------------------------------------------------

/// `/pattern/flags` gives the pattern, which is taken without regard to case exactly
/// where the flags hold an `i`; the last slash ends the pattern.
pub proof fn lemma_slashed_pattern(pattern: Seq<char>, flags: Seq<char>)
    requires
        forall|k: int| 0 <= k < flags.len() ==> #[trigger] flags[k] != '/',
    ensures
        (exists|k: int| 0 <= k < flags.len() && #[trigger] flags[k] == 'i') ==> slashed_pattern(
            seq!['/'] + pattern + seq!['/'] + flags,
        ) == Some("(?i)"@ + pattern),
        (forall|k: int| 0 <= k < flags.len() ==> #[trigger] flags[k] != 'i') ==> slashed_pattern(
            seq!['/'] + pattern + seq!['/'] + flags,
        ) == Some(pattern),
        slashed_pattern(seq!['/'] + flags) is None,
        slashed_pattern(flags) is None,
{
    let s = seq!['/'] + pattern + seq!['/'] + flags;
    let body = s.skip(1);
    let n = pattern.len() as int;
    reveal_strlit("/");
    reveal_strlit("i");
    assert(s.subrange(0, 1) =~= "/"@);
    assert(body =~= pattern + seq!['/'] + flags);
    assert(body.subrange(n, n + 1) =~= "/"@);
    lemma_rfind(body, "/"@);
    assert(occurs_at(body, "/"@, n));
    let p = rfind(body, "/"@)->0;
    if p > n {
        assert(body.subrange(p, p + 1)[0] == body[p]);
        assert(body[p] == flags[p - n - 1]);
    }
    assert(p == n);
    assert(body.take(n) =~= pattern);
    assert(body.skip(n + 1) =~= flags);
    if exists|k: int| 0 <= k < flags.len() && #[trigger] flags[k] == 'i' {
        let k = choose|k: int| 0 <= k < flags.len() && #[trigger] flags[k] == 'i';
        assert(flags.subrange(k, k + 1) =~= "i"@);
        assert(occurs_at(flags, "i"@, k));
    } else {
        lemma_missing_char(flags, "i"@, 0);
    }
    lemma_missing_char(flags, "/"@, 0);
    let one = seq!['/'] + flags;
    assert(one.skip(1) =~= flags);
    lemma_rfind(flags, "/"@);
    if starts_with(flags, "/"@) {
        assert(occurs_at(flags, "/"@, 0));
    }
}

} // verus!
