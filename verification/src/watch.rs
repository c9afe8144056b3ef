//! Lines for the notifications that an application sends.

use vstd::prelude::*;
use crate::error::AxError;
use crate::number::{decimal, push_decimal};
use crate::text::{append2, byte_len, char_count, chars_of, prefix, same_text, utf8_len, views};

verus! {

/// The notification tells of a change after which handles on elements can be
/// stale.
pub open spec fn makes_stale(notification: Seq<char>) -> bool {
    ||| notification == "AXUIElementDestroyed"@
    ||| notification == "AXCreated"@
    ||| notification == "AXLayoutChanged"@
    ||| notification == "AXRowCountChanged"@
}

/// Whether handles on elements can be stale after a notification.
pub fn refs_stale(notification: &str) -> (r: bool)
    ensures
        r == makes_stale(notification@),
{
    same_text(notification, "AXUIElementDestroyed") || same_text(notification, "AXCreated")
        || same_text(notification, "AXLayoutChanged") || same_text(
        notification,
        "AXRowCountChanged",
    )
}

/// The notifications that are watched.
pub open spec fn watched() -> Seq<Seq<char>> {
    seq![
        "AXUIElementDestroyed"@,
        "AXCreated"@,
        "AXLayoutChanged"@,
        "AXValueChanged"@,
        "AXTitleChanged"@,
        "AXFocusedUIElementChanged"@,
        "AXSelectedChildrenChanged"@,
        "AXRowCountChanged"@,
        "AXWindowCreated"@,
        "AXWindowMoved"@,
        "AXWindowResized"@,
        "AXMenuOpened"@,
        "AXMenuClosed"@,
    ]
}

/// The notifications that are watched.
pub fn watched_notifications() -> (r: Vec<String>)
    ensures
        views(r@) == watched(),
{
    let mut r: Vec<String> = Vec::new();
    r.push("AXUIElementDestroyed".to_owned());
    r.push("AXCreated".to_owned());
    r.push("AXLayoutChanged".to_owned());
    r.push("AXValueChanged".to_owned());
    r.push("AXTitleChanged".to_owned());
    r.push("AXFocusedUIElementChanged".to_owned());
    r.push("AXSelectedChildrenChanged".to_owned());
    r.push("AXRowCountChanged".to_owned());
    r.push("AXWindowCreated".to_owned());
    r.push("AXWindowMoved".to_owned());
    r.push("AXWindowResized".to_owned());
    r.push("AXMenuOpened".to_owned());
    r.push("AXMenuClosed".to_owned());
    assert(views(r@) =~= watched());
    r
}

/// The message at the start, where `registered` of the notifications could be
/// registered. There is none for output in JSON.
pub fn watch_start(registered: usize, json: bool) -> (r: Result<Option<String>, AxError>)
    ensures
        if registered == 0 {
            r matches Err(AxError::ActionFailed(m)) && m@ == "failed to register any notifications"@
        } else if json {
            r matches Ok(None)
        } else {
            r matches Ok(Some(m)) && m@ == "Watching "@ + decimal(registered as nat) + "/"@
                + decimal(watched().len()) + " notifications (Ctrl+C to stop)..."@
        },
{
    if registered == 0 {
        return Err(AxError::ActionFailed("failed to register any notifications".to_owned()));
    }
    if json {
        return Ok(None);
    }
    let mut out = "Watching ".to_owned();
    push_decimal(&mut out, registered as u64);
    out.append("/");
    push_decimal(&mut out, watched_notifications().len() as u64);
    out.append(" notifications (Ctrl+C to stop)...");
    Ok(Some(out))
}

// ---------------------------------------------------------------------------
// JSON
// ---------------------------------------------------------------------------

/// The hexadecimal digit for `n`.
pub open spec fn hex_digit(n: nat) -> char {
    if n < 10 {
        ('0' as nat + n) as char
    } else {
        ('a' as nat + n - 10) as char
    }
}

/// `c` as it stands in a JSON string: with a backslash before a backslash and
/// before a double quote, and as its code where it is a control character.
pub open spec fn json_char(c: char) -> Seq<char> {
    if c == '\\' || c == '"' {
        seq!['\\', c]
    } else if (c as nat) < 32 {
        "\\u00"@.push(hex_digit(c as nat / 16)).push(hex_digit(c as nat % 16))
    } else {
        seq![c]
    }
}

/// `s` as it stands in a JSON string.
pub open spec fn json_text(s: Seq<char>) -> Seq<char>
    decreases s.len(),
{
    if s.len() == 0 {
        Seq::empty()
    } else {
        json_text(s.drop_last()) + json_char(s.last())
    }
}

fn hex(n: u8) -> (r: char)
    requires
        n < 16,
    ensures
        r == hex_digit(n as nat),
{
    if n < 10 {
        ('0' as u8 + n) as char
    } else {
        ('a' as u8 + (n - 10)) as char
    }
}

fn push_json_char(out: &mut String, c: char)
    ensures
        final(out)@ == old(out)@ + json_char(c),
{
    let ghost before = out@;
    if c == '\\' || c == '"' {
        out.push('\\');
        out.push(c);
    } else if (c as u32) < 32 {
        let code: u8 = c as u8;
        out.append("\\u00");
        out.push(hex(code / 16));
        out.push(hex(code % 16));
    } else {
        out.push(c);
    }
    assert(out@ =~= before + json_char(c));
}

fn push_json_text(out: &mut String, s: &str)
    ensures
        final(out)@ == old(out)@ + json_text(s@),
{
    let cs = chars_of(s);
    let ghost before = out@;
    assert(before + json_text(s@.take(0)) =~= before);
    for k in 0..cs.len()
        invariant
            cs@ == s@,
            out@ == before + json_text(s@.take(k as int)),
    {
        assert(s@.take(k + 1).drop_last() =~= s@.take(k as int));
        push_json_char(out, cs[k]);
        assert(out@ =~= before + json_text(s@.take(k + 1)));
    }
    assert(s@.take(s@.len() as int) =~= s@);
}

/// No control character stands in a JSON string.
pub proof fn lemma_json_text_is_printable(s: Seq<char>)
    ensures
        forall|k: int| 0 <= k < json_text(s).len() ==> (#[trigger] json_text(s)[k]) as nat >= 32,
    decreases s.len(),
{
    if s.len() > 0 {
        let front = json_text(s.drop_last());
        let own = json_char(s.last());
        lemma_json_text_is_printable(s.drop_last());
        reveal_strlit("\\u00");
        assert forall|k: int| 0 <= k < own.len() implies (#[trigger] own[k]) as nat >= 32 by {
        }
        assert forall|k: int|
            0 <= k < json_text(s).len() implies (#[trigger] json_text(s)[k]) as nat >= 32 by {
            if k < front.len() {
                assert(json_text(s)[k] == front[k]);
            } else {
                assert(json_text(s)[k] == own[k - front.len()]);
            }
        }
    }
}

/// The label of an element: its title, or its description where it has none.
pub open spec fn label(title: Seq<char>, description: Seq<char>) -> Seq<char> {
    if title.len() > 0 {
        title
    } else {
        description
    }
}

fn label_of<'a>(title: &'a str, description: &'a str) -> (r: &'a str)
    ensures
        r@ == label(title@, description@),
{
    if !title.is_empty() {
        title
    } else {
        description
    }
}

/// The line for a notification, as a JSON object.
pub fn json_line(notification: &str, role: &str, title: &str, description: &str) -> (r: String)
    ensures
        r@ == "{\"notification\":\""@ + json_text(notification@) + "\",\"role\":\""@ + json_text(
            role@,
        ) + "\",\"label\":\""@ + json_text(label(title@, description@)) + "\",\"refs_stale\":"@ + (
        if makes_stale(notification@) {
            "true"@
        } else {
            "false"@
        }) + "}"@,
{
    let mut out = "{\"notification\":\"".to_owned();
    push_json_text(&mut out, notification);
    out.append("\",\"role\":\"");
    push_json_text(&mut out, role);
    out.append("\",\"label\":\"");
    push_json_text(&mut out, label_of(title, description));
    out.append("\",\"refs_stale\":");
    out.append(
        if refs_stale(notification) {
            "true"
        } else {
            "false"
        },
    );
    out.append("}");
    out
}

// ---------------------------------------------------------------------------
// Text
// ---------------------------------------------------------------------------

/// The longest label, in bytes, that is written out.
pub const LABEL_BYTES: usize = 60;

/// How many bytes are left of a longer label.
pub const SHORT_LABEL_BYTES: usize = 57;

/// The first characters of `s` that take `n` bytes, where some do.
pub open spec fn byte_prefix(s: Seq<char>, n: nat) -> Option<Seq<char>>
    decreases s.len(),
{
    if utf8_len(s) == n {
        Some(s)
    } else if s.len() == 0 {
        None
    } else {
        byte_prefix(s.drop_last(), n)
    }
}

/// The label can be cut: it is short enough, or characters of it take the bytes
/// that are left.
pub open spec fn can_shorten(s: Seq<char>) -> bool {
    utf8_len(s) > LABEL_BYTES ==> byte_prefix(s, SHORT_LABEL_BYTES as nat) is Some
}

/// The label `s`, cut where it is too long.
pub open spec fn shortened(s: Seq<char>) -> Seq<char> {
    if utf8_len(s) > LABEL_BYTES {
        byte_prefix(s, SHORT_LABEL_BYTES as nat)->0 + "..."@
    } else {
        s
    }
}

/// A label, cut where it is too long.
fn shorten(s: &str) -> (r: String)
    requires
        can_shorten(s@),
    ensures
        r@ == shortened(s@),
{
    if byte_len(s) <= LABEL_BYTES {
        return s.to_owned();
    }
    let mut k: usize = char_count(s);
    assert(s@.take(k as int) =~= s@);
    loop
        invariant
            k <= s@.len(),
            can_shorten(s@),
            utf8_len(s@) > LABEL_BYTES,
            byte_prefix(s@, SHORT_LABEL_BYTES as nat) == byte_prefix(
                s@.take(k as int),
                SHORT_LABEL_BYTES as nat,
            ),
        decreases k,
    {
        let part = prefix(s, k);
        if byte_len(part) == SHORT_LABEL_BYTES {
            return append2(part, "...");
        }
        assert(k > 0);
        assert(s@.take(k as int).drop_last() =~= s@.take(k - 1));
        k -= 1;
    }
}

/// The line for a notification, as text. A long label is cut after
/// `SHORT_LABEL_BYTES` bytes, which must be the end of a character.
pub fn text_line(notification: &str, role: &str, title: &str, description: &str) -> (r: String)
    requires
        can_shorten(label(title@, description@)),
    ensures
        r@ == notification@ + " \u{2192} "@ + role@ + " \""@ + shortened(
            label(title@, description@),
        ) + "\""@ + (if makes_stale(notification@) {
            " \u{26a0}\u{fe0f}  refs stale"@
        } else {
            ""@
        }),
{
    let short = shorten(label_of(title, description));
    let mut out = notification.to_owned();
    out.append(" \u{2192} ");
    out.append(role);
    out.append(" \"");
    out.append(short.as_str());
    out.append("\"");
    out.append(
        if refs_stale(notification) {
            " \u{26a0}\u{fe0f}  refs stale"
        } else {
            ""
        },
    );
    out
}

// ---------------------------------------------------------------------------
// Laws
// ---------------------------------------------------------------------------

/// Handles can be stale after these four notifications, and after no other; all of
/// them are watched.
pub proof fn lemma_stale_notifications(n: Seq<char>)
    ensures
        makes_stale(n) <==> n == "AXUIElementDestroyed"@ || n == "AXCreated"@ || n
            == "AXLayoutChanged"@ || n == "AXRowCountChanged"@,
        makes_stale(n) ==> watched().contains(n),
        watched().len() == 13,
{
    let w = watched();
    assert(w[0] == "AXUIElementDestroyed"@ && w[1] == "AXCreated"@ && w[2] == "AXLayoutChanged"@);
    assert(w[7] == "AXRowCountChanged"@);
}

/// These notifications are watched.
pub proof fn lemma_watched()
    ensures
        watched().contains("AXValueChanged"@) && watched().contains("AXTitleChanged"@),
        watched().contains("AXFocusedUIElementChanged"@),
        watched().contains("AXSelectedChildrenChanged"@),
        watched().contains("AXWindowCreated"@) && watched().contains("AXWindowMoved"@),
        watched().contains("AXWindowResized"@),
        watched().contains("AXMenuOpened"@) && watched().contains("AXMenuClosed"@),
{
    let w = watched();
    assert(w[3] == "AXValueChanged"@ && w[4] == "AXTitleChanged"@);
    assert(w[5] == "AXFocusedUIElementChanged"@ && w[6] == "AXSelectedChildrenChanged"@);
    assert(w[8] == "AXWindowCreated"@ && w[9] == "AXWindowMoved"@ && w[10] == "AXWindowResized"@);
    assert(w[11] == "AXMenuOpened"@ && w[12] == "AXMenuClosed"@);
}

/// The label is the title, and the description only where there is no title.
pub proof fn lemma_label(title: Seq<char>, description: Seq<char>)
    ensures
        title.len() > 0 ==> label(title, description) == title,
        label(Seq::empty(), description) == description,
{
}

/// The first of the two hexadecimal digits of a control character.
pub open spec fn sixteens(c: char) -> char {
    if c >= '\u{10}' {
        '1'
    } else {
        '0'
    }
}

/// A text in a JSON string is its characters one after the other: a backslash and a
/// double quote with a backslash before them, a control character as its code in
/// four hexadecimal digits, and every other as it is.
pub proof fn lemma_json_text(s: Seq<char>, c: char)
    ensures
        json_text(Seq::empty()) == Seq::<char>::empty(),
        c == '"' || c == '\\' ==> json_text(s.push(c)) == json_text(s) + seq!['\\', c],
        c >= ' ' && c != '"' && c != '\\' ==> json_text(s.push(c)) == json_text(s) + seq![c],
        c < ' ' ==> json_text(s.push(c)) == json_text(s) + seq![
            '\\',
            'u',
            '0',
            '0',
            sixteens(c),
            hex_digit(c as nat % 16),
        ],
        hex_digit(9) == '9' && hex_digit(10) == 'a' && hex_digit(15) == 'f',
{
    assert(s.push(c).drop_last() =~= s);
    reveal_strlit("\\u00");
    if c < ' ' && c != '"' && c != '\\' {
        assert(json_char(c) =~= seq![
            '\\',
            'u',
            '0',
            '0',
            sixteens(c),
            hex_digit(c as nat % 16),
        ]);
    }
}

/// A label of more than 60 bytes is cut after 57 bytes and has three dots behind it;
/// any other stays.
pub proof fn lemma_shortened(s: Seq<char>)
    requires
        can_shorten(s),
    ensures
        utf8_len(s) <= 60 ==> shortened(s) == s,
        utf8_len(s) > 60 ==> exists|k: int|
            0 <= k <= s.len() && utf8_len(#[trigger] s.take(k)) == 57 && shortened(s) == s.take(k)
                + "..."@,
{
    if utf8_len(s) > 60 {
        lemma_byte_prefix(s, s.len() as int);
        assert(s.take(s.len() as int) =~= s);
    }
}

proof fn lemma_byte_prefix(s: Seq<char>, n: int)
    requires
        0 <= n <= s.len(),
    ensures
        byte_prefix(s.take(n), 57) matches Some(p) ==> exists|k: int|
            0 <= k <= n && utf8_len(#[trigger] s.take(k)) == 57 && p == s.take(k),
    decreases n,
{
    if utf8_len(s.take(n)) != 57 && n > 0 {
        assert(s.take(n).drop_last() =~= s.take(n - 1));
        lemma_byte_prefix(s, n - 1);
    }
}

} // verus!
