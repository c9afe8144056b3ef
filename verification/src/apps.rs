//! Finding and listing running applications.

use vstd::prelude::*;
use crate::error::AxError;
use crate::number::{decimal, push_decimal, push_signed_decimal, signed_decimal};
use crate::text::{char_count, chars_of, contains, contains_text, occurs_at, same_text};
use crate::unicode::{lowercase, to_lowercase};

verus! {

/// What is known of a running application. A name or bundle identifier that is
/// not known is empty.
#[derive(Debug)]
pub struct AppInfo {
    pub pid: i32,
    pub name: String,
    pub bundle: String,
}

/// A running application.
pub ghost struct App {
    pub pid: int,
    pub name: Seq<char>,
    pub bundle: Seq<char>,
}

impl View for AppInfo {
    type V = App;

    open spec fn view(&self) -> App {
        App { pid: self.pid as int, name: self.name@, bundle: self.bundle@ }
    }
}

impl Clone for AppInfo {
    fn clone(&self) -> (r: Self)
        ensures
            r@ == self@,
    {
        AppInfo { pid: self.pid, name: self.name.clone(), bundle: self.bundle.clone() }
    }
}

/// The views of a list of applications.
pub open spec fn app_views(v: Seq<AppInfo>) -> Seq<App> {
    Seq::new(v.len(), |i: int| v[i]@)
}

// ---------------------------------------------------------------------------
// Finding an application by name
// ---------------------------------------------------------------------------

/// How well an application answers to a name, all three in lower case: 0 for its
/// own name, 1 for its bundle identifier, 2 and 3 for a part of these.
pub open spec fn tier(name: Seq<char>, bundle: Seq<char>, needle: Seq<char>) -> Option<usize> {
    if name == needle {
        Some(0)
    } else if bundle == needle {
        Some(1)
    } else if contains(name, needle) {
        Some(2)
    } else if contains(bundle, needle) {
        Some(3)
    } else {
        None
    }
}

/// How well an application answers to a name, all three in lower case.
pub fn app_tier(name: &str, bundle: &str, needle: &str) -> (r: Option<usize>)
    ensures
        r == tier(name@, bundle@, needle@),
{
    if same_text(name, needle) {
        Some(0)
    } else if same_text(bundle, needle) {
        Some(1)
    } else if contains_text(name, needle) {
        Some(2)
    } else if contains_text(bundle, needle) {
        Some(3)
    } else {
        None
    }
}

/// How well the application answers to `name`, in any case.
pub open spec fn tier_of(app: App, name: Seq<char>) -> Option<usize> {
    tier(lowercase(app.name), lowercase(app.bundle), lowercase(name))
}

/// The applications of one tier, in their order.
pub open spec fn in_tier(name: Seq<char>, t: usize) -> spec_fn(App) -> bool {
    |app: App| tier_of(app, name) == Some(t)
}

/// The applications that answer to `name` in tier `t`.
pub open spec fn tier_apps(apps: Seq<App>, name: Seq<char>, t: usize) -> Seq<App> {
    apps.filter(in_tier(name, t))
}

/// The best tier in which there is an application.
pub open spec fn best_tier(apps: Seq<App>, name: Seq<char>) -> Option<usize> {
    if tier_apps(apps, name, 0).len() > 0 {
        Some(0)
    } else if tier_apps(apps, name, 1).len() > 0 {
        Some(1)
    } else if tier_apps(apps, name, 2).len() > 0 {
        Some(2)
    } else if tier_apps(apps, name, 3).len() > 0 {
        Some(3)
    } else {
        None
    }
}

/// The applications that answer best to `name`, in their order.
pub open spec fn best_apps(apps: Seq<App>, name: Seq<char>) -> Seq<App> {
    match best_tier(apps, name) {
        Some(t) => tier_apps(apps, name, t),
        None => Seq::empty(),
    }
}

/// The applications of one tier.
fn collect_tier(apps: &Vec<AppInfo>, name: &str, t: usize) -> (r: Vec<AppInfo>)
    ensures
        app_views(r@) == tier_apps(app_views(apps@), name@, t),
{
    let needle = to_lowercase(name);
    let ghost all = app_views(apps@);
    let ghost pred = in_tier(name@, t);
    let mut out: Vec<AppInfo> = Vec::new();
    proof {
        reveal(Seq::filter);
    }
    assert(app_views(out@) =~= all.take(0).filter(pred));
    for k in 0..apps.len()
        invariant
            all == app_views(apps@),
            pred == in_tier(name@, t),
            needle@ == lowercase(name@),
            app_views(out@) == all.take(k as int).filter(pred),
    {
        proof {
            reveal(Seq::filter);
            assert(all.take(k + 1).drop_last() =~= all.take(k as int));
            assert(all.take(k + 1).last() == apps@[k as int]@);
        }
        let app = &apps[k];
        let n = to_lowercase(app.name.as_str());
        let b = to_lowercase(app.bundle.as_str());
        let ours = match app_tier(n.as_str(), b.as_str(), needle.as_str()) {
            Some(found) => found == t,
            None => false,
        };
        assert(ours == pred(app@));
        if ours {
            let ghost before = out@;
            let copy = app.clone();
            out.push(copy);
            assert(app_views(out@) =~= app_views(before).push(app@));
        }
    }
    assert(all.take(apps@.len() as int) =~= all);
    out
}

/// The applications that answer best to a name, in their order.
///
/// The tiers, from the best to the worst, where case never counts:
///   1. The exact name
///   2. The exact bundle identifier
///   3. A part of the name
///   4. A part of the bundle identifier
pub fn matching_apps(apps: &Vec<AppInfo>, name: &str) -> (r: (usize, Vec<AppInfo>))
    ensures
        app_views(r.1@) == best_apps(app_views(apps@), name@),
        best_tier(app_views(apps@), name@) matches Some(t) ==> r.0 == t,
        best_tier(app_views(apps@), name@) is None ==> r.0 == 4,
{
    for t in 0..4usize
        invariant
            forall|u: usize|
                u < t ==> (#[trigger] tier_apps(app_views(apps@), name@, u)).len() == 0,
    {
        let found = collect_tier(apps, name, t);
        assert(tier_apps(app_views(apps@), name@, t).len() == found@.len());
        if found.len() > 0 {
            return (t, found);
        }
    }
    let none: Vec<AppInfo> = Vec::new();
    assert(app_views(none@) =~= Seq::empty());
    (4, none)
}

/// The process and the name of the application that answers best to a name. The
/// first is taken where there are several.
pub fn find_app_by_name(apps: &Vec<AppInfo>, name: &str) -> (r: Option<(i32, String)>)
    ensures
        match r {
            Some((pid, n)) => best_apps(app_views(apps@), name@).len() > 0 && pid == best_apps(
                app_views(apps@),
                name@,
            )[0].pid && n@ == best_apps(app_views(apps@), name@)[0].name,
            None => best_apps(app_views(apps@), name@).len() == 0,
        },
{
    let (_, found) = matching_apps(apps, name);
    if found.len() == 0 {
        return None;
    }
    assert(app_views(found@)[0] == found@[0]@);
    Some((found[0].pid, found[0].name.clone()))
}

/// What a tier is called.
pub open spec fn tier_label(t: usize) -> Seq<char> {
    if t == 0 {
        "exact/name"@
    } else if t == 1 {
        "exact/bundle"@
    } else if t == 2 {
        "substring/name"@
    } else {
        "substring/bundle"@
    }
}

fn tier_label_text(t: usize) -> (r: &'static str)
    ensures
        r@ == tier_label(t),
{
    if t == 0 {
        "exact/name"
    } else if t == 1 {
        "exact/bundle"
    } else if t == 2 {
        "substring/name"
    } else {
        "substring/bundle"
    }
}

/// `n` spaces.
pub open spec fn blanks(n: nat) -> Seq<char> {
    Seq::new(n, |i: int| ' ')
}

/// `s` with spaces after it up to `width` characters.
pub open spec fn pad_right(s: Seq<char>, width: nat) -> Seq<char> {
    if s.len() < width {
        s + blanks((width - s.len()) as nat)
    } else {
        s
    }
}

/// `s` with spaces before it up to `width` characters.
pub open spec fn pad_left(s: Seq<char>, width: nat) -> Seq<char> {
    if s.len() < width {
        blanks((width - s.len()) as nat) + s
    } else {
        s
    }
}

fn push_blanks(out: &mut String, n: usize)
    ensures
        final(out)@ == old(out)@ + blanks(n as nat),
{
    let ghost before = out@;
    assert(before + blanks(0) =~= before);
    for k in 0..n
        invariant
            out@ == before + blanks(k as nat),
    {
        out.push(' ');
        assert(out@ =~= before + blanks((k + 1) as nat));
    }
}

fn push_padded_right(out: &mut String, s: &str, width: usize)
    ensures
        final(out)@ == old(out)@ + pad_right(s@, width as nat),
{
    let ghost before = out@;
    let n: usize = char_count(s);
    out.append(s);
    if n < width {
        push_blanks(out, width - n);
    }
    assert(out@ =~= before + pad_right(s@, width as nat));
}

fn push_padded_left(out: &mut String, s: &str, width: usize)
    ensures
        final(out)@ == old(out)@ + pad_left(s@, width as nat),
{
    let ghost before = out@;
    let n: usize = char_count(s);
    if n < width {
        push_blanks(out, width - n);
    }
    out.append(s);
    assert(out@ =~= before + pad_left(s@, width as nat));
}

fn pid_text(pid: i32) -> (r: String)
    ensures
        r@ == signed_decimal(pid as int),
{
    let mut out = String::new();
    push_signed_decimal(&mut out, pid as i64);
    out
}

/// The lines of the hint, one for each application.
pub open spec fn hint_lines(apps: Seq<App>) -> Seq<char>
    decreases apps.len(),
{
    if apps.len() == 0 {
        Seq::empty()
    } else {
        let app = apps.last();
        hint_lines(apps.drop_last()) + "\n  pid="@ + pad_right(signed_decimal(app.pid), 6) + "  "@
            + app.name + "  ["@ + app.bundle + "]"@
    }
}

/// The hint that several applications answer to `name` in tier `t`.
pub open spec fn hint(apps: Seq<App>, name: Seq<char>, t: usize) -> Seq<char> {
    "note: "@ + decimal(apps.len()) + " apps matched '"@ + name + "' (tier="@ + tier_label(t)
        + "), using first \u{2014} be more specific to pick:"@ + hint_lines(apps)
}

/// The hint that there are several applications that answer best to a name,
/// where there are.
pub fn ambiguity_hint(apps: &Vec<AppInfo>, name: &str) -> (r: Option<String>)
    ensures
        match r {
            Some(h) => best_apps(app_views(apps@), name@).len() > 1 && h@ == hint(
                best_apps(app_views(apps@), name@),
                name@,
                best_tier(app_views(apps@), name@)->0,
            ),
            None => best_apps(app_views(apps@), name@).len() <= 1,
        },
{
    let (t, found) = matching_apps(apps, name);
    let ghost best = best_apps(app_views(apps@), name@);
    assert(best.len() == found@.len());
    if found.len() <= 1 {
        return None;
    }
    let mut out = "note: ".to_owned();
    push_decimal(&mut out, found.len() as u64);
    out.append(" apps matched '");
    out.append(name);
    out.append("' (tier=");
    out.append(tier_label_text(t));
    out.append("), using first \u{2014} be more specific to pick:");
    let ghost head = out@;
    assert(head + hint_lines(best.take(0)) =~= head);
    for k in 0..found.len()
        invariant
            best == app_views(found@),
            out@ == head + hint_lines(best.take(k as int)),
    {
        let app = &found[k];
        proof {
            assert(best.take(k + 1).drop_last() =~= best.take(k as int));
            assert(best.take(k + 1).last() == app@);
        }
        out.append("\n  pid=");
        push_padded_right(&mut out, pid_text(app.pid).as_str(), 6);
        out.append("  ");
        out.append(app.name.as_str());
        out.append("  [");
        out.append(app.bundle.as_str());
        out.append("]");
        assert(out@ =~= head + hint_lines(best.take(k + 1)));
    }
    assert(best.take(found@.len() as int) =~= best);
    Some(out)
}

// ---------------------------------------------------------------------------
// Choosing the application
// ---------------------------------------------------------------------------

/// How the application to work on is given.
#[derive(Debug)]
pub enum AppChoice {
    /// By its process.
    Pid(i32),
    /// By its name.
    Name(String),
}

/// How the application to work on is given: by its process, or else by its name.
pub fn choose_app(pid: Option<i32>, name: &Option<String>) -> (r: Result<AppChoice, AxError>)
    ensures
        match (pid, *name) {
            (Some(p), _) => r matches Ok(AppChoice::Pid(q)) && q == p,
            (None, Some(n)) => r matches Ok(AppChoice::Name(m)) && m@ == n@,
            (None, None) => r matches Err(AxError::InvalidArgument(m)) && m@
                == "--app or --pid is required"@,
        },
{
    if let Some(p) = pid {
        return Ok(AppChoice::Pid(p));
    }
    match name {
        Some(n) => Ok(AppChoice::Name(n.clone())),
        None => Err(AxError::InvalidArgument("--app or --pid is required".to_owned())),
    }
}

/// The process of the application that answers best to a name, and its name.
pub fn resolve_app(apps: &Vec<AppInfo>, name: &str) -> (r: Result<(i32, String), AxError>)
    ensures
        match r {
            Ok((pid, n)) => best_apps(app_views(apps@), name@).len() > 0 && pid == best_apps(
                app_views(apps@),
                name@,
            )[0].pid && n@ == best_apps(app_views(apps@), name@)[0].name,
            Err(AxError::AppNotFound(m)) => best_apps(app_views(apps@), name@).len() == 0 && m@
                == name@,
            Err(_) => false,
        },
{
    match find_app_by_name(apps, name) {
        Some(found) => Ok(found),
        None => Err(AxError::AppNotFound(name.to_owned())),
    }
}

// ---------------------------------------------------------------------------
// Listing the applications
// ---------------------------------------------------------------------------

/// `a` comes before `b` in the order of their characters.
pub open spec fn text_before(a: Seq<char>, b: Seq<char>) -> bool
    decreases a.len(),
{
    if b.len() == 0 {
        false
    } else if a.len() == 0 {
        true
    } else if a[0] != b[0] {
        a[0] < b[0]
    } else {
        text_before(a.skip(1), b.skip(1))
    }
}

fn is_text_before(a: &str, b: &str) -> (r: bool)
    ensures
        r == text_before(a@, b@),
{
    let xs = chars_of(a);
    let ys = chars_of(b);
    let mut k: usize = 0;
    assert(a@.skip(0) =~= a@);
    assert(b@.skip(0) =~= b@);
    while k < xs.len() && k < ys.len()
        invariant
            k <= xs@.len(),
            k <= ys@.len(),
            xs@ == a@,
            ys@ == b@,
            text_before(a@, b@) == text_before(a@.skip(k as int), b@.skip(k as int)),
        decreases xs@.len() - k,
    {
        assert(a@.skip(k as int)[0] == xs@[k as int]);
        assert(b@.skip(k as int)[0] == ys@[k as int]);
        assert(a@.skip(k as int).skip(1) =~= a@.skip(k + 1));
        assert(b@.skip(k as int).skip(1) =~= b@.skip(k + 1));
        if xs[k] != ys[k] {
            return xs[k] < ys[k];
        }
        k += 1;
    }
    k < ys.len()
}

/// What the list of applications is ordered by.
pub open spec fn list_key(app: App) -> Seq<char> {
    lowercase(app.name)
}

/// `list`, which is in order, with `app` put behind everything that does not come
/// after it.
pub open spec fn put_in_order(list: Seq<App>, app: App) -> Seq<App>
    decreases list.len(),
{
    if list.len() > 0 && text_before(list_key(app), list_key(list.last())) {
        put_in_order(list.drop_last(), app).push(list.last())
    } else {
        list.push(app)
    }
}

/// The applications that have a name and a bundle identifier, in the order of
/// their names in lower case. Those with the same keep their order.
pub open spec fn listing(apps: Seq<App>) -> Seq<App>
    decreases apps.len(),
{
    if apps.len() == 0 {
        Seq::empty()
    } else {
        let before = listing(apps.drop_last());
        let app = apps.last();
        if app.name.len() > 0 && app.bundle.len() > 0 {
            put_in_order(before, app)
        } else {
            before
        }
    }
}

/// Puts an application behind everything that does not come after it.
fn insert_in_order(list: &mut Vec<AppInfo>, keys: &mut Vec<String>, app: AppInfo, key: String)
    requires
        old(list)@.len() == old(keys)@.len(),
        forall|j: int|
            0 <= j < old(list)@.len() ==> (#[trigger] old(keys)@[j])@ == list_key(old(list)@[j]@),
        key@ == list_key(app@),
    ensures
        final(list)@.len() == final(keys)@.len(),
        forall|j: int|
            0 <= j < final(list)@.len() ==> (#[trigger] final(keys)@[j])@ == list_key(
                final(list)@[j]@,
            ),
        app_views(final(list)@) == put_in_order(app_views(old(list)@), app@),
{
    let ghost all = app_views(list@);
    let ghost olds = list@;
    let mut at: usize = list.len();
    let ghost mut behind: Seq<App> = Seq::empty();
    assert(all.take(at as int) =~= all);
    assert(put_in_order(all, app@) + behind =~= put_in_order(all, app@));
    while at > 0 && is_text_before(key.as_str(), keys[at - 1].as_str())
        invariant
            at <= list@.len(),
            list@ == olds,
            all == app_views(list@),
            list@.len() == keys@.len(),
            forall|j: int|
                0 <= j < list@.len() ==> (#[trigger] keys@[j])@ == list_key(list@[j]@),
            key@ == list_key(app@),
            behind == all.skip(at as int),
            put_in_order(all, app@) == put_in_order(all.take(at as int), app@) + behind,
        decreases at,
    {
        proof {
            let front = all.take(at as int);
            assert(front.last() == list@[at - 1]@);
            assert(front.drop_last() =~= all.take(at - 1));
            behind = seq![front.last()] + behind;
            assert(behind =~= all.skip(at - 1));
            assert(put_in_order(all, app@) =~= put_in_order(all.take(at - 1), app@) + behind);
        }
        at -= 1;
    }
    proof {
        let front = all.take(at as int);
        if at > 0 {
            assert(front.last() == list@[at - 1]@);
            assert(keys@[at - 1]@ == list_key(front.last()));
        }
        assert(put_in_order(front, app@) == front.push(app@));
    }
    list.insert(at, app);
    keys.insert(at, key);
    assert(app_views(list@) =~= all.take(at as int).push(app@) + behind);
}

/// The applications that have a name and a bundle identifier, in the order of
/// their names in lower case.
pub fn list_apps(apps: &Vec<AppInfo>) -> (r: Vec<AppInfo>)
    ensures
        app_views(r@) == listing(app_views(apps@)),
{
    let ghost all = app_views(apps@);
    let mut list: Vec<AppInfo> = Vec::new();
    let mut keys: Vec<String> = Vec::new();
    assert(app_views(list@) =~= listing(all.take(0)));
    for k in 0..apps.len()
        invariant
            all == app_views(apps@),
            list@.len() == keys@.len(),
            forall|j: int|
                0 <= j < list@.len() ==> (#[trigger] keys@[j])@ == list_key(list@[j]@),
            app_views(list@) == listing(all.take(k as int)),
    {
        let app = &apps[k];
        proof {
            assert(all.take(k + 1).drop_last() =~= all.take(k as int));
            assert(all.take(k + 1).last() == app@);
        }
        if !app.bundle.as_str().is_empty() && !app.name.as_str().is_empty() {
            let key = to_lowercase(app.name.as_str());
            let copy = app.clone();
            insert_in_order(&mut list, &mut keys, copy, key);
        }
    }
    assert(all.take(apps@.len() as int) =~= all);
    list
}

/// The line of the list for an application.
pub fn app_line(app: &AppInfo) -> (r: String)
    ensures
        r@ == pad_left(signed_decimal(app.pid as int), 6) + "  "@ + pad_right(app.name@, 30) + " "@
            + app.bundle@,
{
    let mut out = String::new();
    push_padded_left(&mut out, pid_text(app.pid).as_str(), 6);
    out.append("  ");
    push_padded_right(&mut out, app.name.as_str(), 30);
    out.append(" ");
    out.append(app.bundle.as_str());
    assert(out@ =~= pad_left(signed_decimal(app.pid as int), 6) + "  "@ + pad_right(app.name@, 30)
        + " "@ + app.bundle@);
    out
}

// ---------------------------------------------------------------------------
// Laws
// ---------------------------------------------------------------------------

/// Of two texts, one alone can come before the other.
proof fn lemma_text_before_one_way(a: Seq<char>, b: Seq<char>)
    requires
        text_before(a, b),
    ensures
        !text_before(b, a),
    decreases a.len(),
{
    if a.len() > 0 && a[0] == b[0] {
        lemma_text_before_one_way(a.skip(1), b.skip(1));
    }
}

/// Not to come after a text is handed on.
proof fn lemma_text_order(a: Seq<char>, b: Seq<char>, c: Seq<char>)
    requires
        !text_before(b, a),
        !text_before(c, b),
    ensures
        !text_before(c, a),
    decreases a.len(),
{
    if a.len() > 0 && b.len() > 0 && c.len() > 0 && a[0] == b[0] && b[0] == c[0] {
        lemma_text_order(a.skip(1), b.skip(1), c.skip(1));
    }
}

/// None of the applications comes after one that stands behind it.
pub open spec fn in_order(list: Seq<App>) -> bool {
    forall|i: int, j: int|
        0 <= i < j < list.len() ==> !text_before(
            list_key(#[trigger] list[j]),
            list_key(#[trigger] list[i]),
        )
}

proof fn lemma_put_in_order(list: Seq<App>, app: App)
    requires
        in_order(list),
    ensures
        in_order(put_in_order(list, app)),
        put_in_order(list, app).to_multiset() == list.to_multiset().insert(app),
    decreases list.len(),
{
    broadcast use vstd::seq_lib::group_to_multiset_ensures;

    let r = put_in_order(list, app);
    if list.len() > 0 && text_before(list_key(app), list_key(list.last())) {
        let front = list.drop_last();
        let last = list.last();
        assert forall|i: int, j: int| 0 <= i < j < front.len() implies !text_before(
            list_key(#[trigger] front[j]),
            list_key(#[trigger] front[i]),
        ) by {
            assert(front[i] == list[i] && front[j] == list[j]);
        }
        lemma_put_in_order(front, app);
        let part = put_in_order(front, app);
        assert(front.push(last) =~= list);
        assert(r.to_multiset() =~= list.to_multiset().insert(app));
        lemma_text_before_one_way(list_key(app), list_key(last));
        assert forall|i: int| 0 <= i < part.len() implies !text_before(
            list_key(last),
            list_key(#[trigger] part[i]),
        ) by {
            assert(part.to_multiset().count(part[i]) > 0);
            if part[i] != app {
                assert(front.to_multiset().count(part[i]) > 0);
                assert(front.contains(part[i]));
                let k = choose|k: int| 0 <= k < front.len() && front[k] == part[i];
                assert(list[k] == part[i]);
                assert(list[list.len() - 1] == last);
            }
        }
        assert forall|i: int, j: int| 0 <= i < j < r.len() implies !text_before(
            list_key(#[trigger] r[j]),
            list_key(#[trigger] r[i]),
        ) by {
            if j < part.len() {
                assert(r[i] == part[i] && r[j] == part[j]);
            } else {
                assert(r[i] == part[i] && r[j] == last);
            }
        }
    } else {
        assert forall|i: int, j: int| 0 <= i < j < r.len() implies !text_before(
            list_key(#[trigger] r[j]),
            list_key(#[trigger] r[i]),
        ) by {
            if j < list.len() {
                assert(r[i] == list[i] && r[j] == list[j]);
            } else {
                assert(r[i] == list[i] && r[j] == app);
                if i < list.len() - 1 {
                    lemma_text_order(
                        list_key(list[i]),
                        list_key(list[list.len() - 1]),
                        list_key(app),
                    );
                }
            }
        }
    }
}

/// The application has a name and a bundle identifier.
pub open spec fn is_listed() -> spec_fn(App) -> bool {
    |app: App| app.name.len() > 0 && app.bundle.len() > 0
}

/// The list is in order, and it holds each application that has a name and a
/// bundle identifier, as often as there is one, and nothing else.
pub proof fn lemma_listing(apps: Seq<App>)
    ensures
        in_order(listing(apps)),
        listing(apps).to_multiset() == apps.filter(is_listed()).to_multiset(),
    decreases apps.len(),
{
    broadcast use vstd::seq_lib::group_to_multiset_ensures;

    reveal(Seq::filter);
    if apps.len() > 0 {
        let front = apps.drop_last();
        lemma_listing(front);
        if is_listed()(apps.last()) {
            lemma_put_in_order(listing(front), apps.last());
            assert(apps.filter(is_listed()) =~= front.filter(is_listed()).push(apps.last()));
        }
        assert(listing(apps).to_multiset() =~= apps.filter(is_listed()).to_multiset());
    } else {
        assert(listing(apps) =~= apps.filter(is_listed()));
    }
}

/// Two conditions that agree on every application keep the same ones.
proof fn lemma_same_filter(apps: Seq<App>, p: spec_fn(App) -> bool, q: spec_fn(App) -> bool)
    requires
        forall|k: int| 0 <= k < apps.len() ==> p(#[trigger] apps[k]) == q(apps[k]),
    ensures
        apps.filter(p) == apps.filter(q),
    decreases apps.len(),
{
    reveal(Seq::filter);
    if apps.len() > 0 {
        let front = apps.drop_last();
        assert forall|k: int| 0 <= k < front.len() implies p(#[trigger] front[k]) == q(
            front[k],
        ) by {
            assert(front[k] == apps[k]);
        }
        lemma_same_filter(front, p, q);
        assert(apps[apps.len() - 1] == apps.last());
    }
}

/// A condition keeps something exactly where it holds of something.
proof fn lemma_filter_some(apps: Seq<App>, p: spec_fn(App) -> bool)
    ensures
        apps.filter(p).len() > 0 <==> exists|k: int| 0 <= k < apps.len() && p(#[trigger] apps[k]),
    decreases apps.len(),
{
    reveal(Seq::filter);
    if apps.len() > 0 {
        let front = apps.drop_last();
        lemma_filter_some(front, p);
        if front.filter(p).len() > 0 {
            let k = choose|k: int| 0 <= k < front.len() && p(#[trigger] front[k]);
            assert(apps[k] == front[k]);
        }
        assert(apps[apps.len() - 1] == apps.last());
        if exists|k: int| 0 <= k < apps.len() && p(#[trigger] apps[k]) {
            let k = choose|k: int| 0 <= k < apps.len() && p(#[trigger] apps[k]);
            if k < front.len() {
                assert(front[k] == apps[k]);
            }
        }
    }
}

/// The applications that answer best to a name, where case does not count: those of
/// that name; or else those of that bundle identifier; or else those whose name
/// holds it, at whatever position; or else those whose bundle identifier holds it.
#[verifier::rlimit(50)]
pub proof fn lemma_best_apps(apps: Seq<App>, name: Seq<char>)
    ensures
        ({
            let needle = lowercase(name);
            let by_name = |a: App| lowercase(a.name) == needle;
            let by_bundle = |a: App| lowercase(a.bundle) == needle;
            let in_name = |a: App| exists|k: int| occurs_at(lowercase(a.name), needle, k);
            let in_bundle = |a: App| exists|k: int| occurs_at(lowercase(a.bundle), needle, k);
            best_apps(apps, name) == if exists|j: int|
                0 <= j < apps.len() && by_name(#[trigger] apps[j]) {
                apps.filter(by_name)
            } else if exists|j: int| 0 <= j < apps.len() && by_bundle(#[trigger] apps[j]) {
                apps.filter(by_bundle)
            } else if exists|j: int| 0 <= j < apps.len() && in_name(#[trigger] apps[j]) {
                apps.filter(in_name)
            } else {
                apps.filter(in_bundle)
            }
        }),
{
    let needle = lowercase(name);
    let by_name = |a: App| lowercase(a.name) == needle;
    let by_bundle = |a: App| lowercase(a.bundle) == needle;
    let in_name = |a: App| exists|k: int| occurs_at(lowercase(a.name), needle, k);
    let in_bundle = |a: App| exists|k: int| occurs_at(lowercase(a.bundle), needle, k);
    lemma_same_filter(apps, in_tier(name, 0), by_name);
    lemma_filter_some(apps, by_name);
    if !(exists|j: int| 0 <= j < apps.len() && by_name(#[trigger] apps[j])) {
        lemma_same_filter(apps, in_tier(name, 1), by_bundle);
        lemma_filter_some(apps, by_bundle);
        if !(exists|j: int| 0 <= j < apps.len() && by_bundle(#[trigger] apps[j])) {
            assert forall|j: int| 0 <= j < apps.len() implies in_tier(name, 2)(#[trigger] apps[j])
                == in_name(apps[j]) by {
                assert(!by_name(apps[j]) && !by_bundle(apps[j]));
            }
            lemma_same_filter(apps, in_tier(name, 2), in_name);
            lemma_filter_some(apps, in_name);
            if !(exists|j: int| 0 <= j < apps.len() && in_name(#[trigger] apps[j])) {
                assert forall|j: int| 0 <= j < apps.len() implies in_tier(name, 3)(
                    #[trigger] apps[j],
                ) == in_bundle(apps[j]) by {
                    assert(!by_name(apps[j]) && !by_bundle(apps[j]) && !in_name(apps[j]));
                    assert(contains(lowercase(apps[j].bundle), needle) == in_bundle(apps[j]));
                }
                lemma_same_filter(apps, in_tier(name, 3), in_bundle);
                assert(best_apps(apps, name) =~= apps.filter(in_bundle));
            }
        }
    }
}

/// A name that stands anywhere in the name or the bundle identifier of an
/// application finds one. Where it is nobody's whole name or identifier, the first
/// application whose name holds it is the one.
#[verifier::rlimit(50)]
pub proof fn lemma_part_of_name_finds(apps: Seq<App>, name: Seq<char>, j: int, k: int)
    requires
        0 <= j < apps.len(),
    ensures
        occurs_at(lowercase(apps[j].name), lowercase(name), k) || occurs_at(
            lowercase(apps[j].bundle),
            lowercase(name),
            k,
        ) ==> best_apps(apps, name).len() > 0,
        occurs_at(lowercase(apps[j].name), lowercase(name), k) && (forall|m: int|
            0 <= m < apps.len() ==> lowercase((#[trigger] apps[m]).name) != lowercase(name)
                && lowercase(apps[m].bundle) != lowercase(name)) && (forall|m: int, n: int|
            0 <= m < j ==> !(#[trigger] occurs_at(lowercase(apps[m].name), lowercase(name), n)))
            ==> best_apps(apps, name)[0] == apps[j],
{
    let needle = lowercase(name);
    let by_name = |a: App| lowercase(a.name) == needle;
    let by_bundle = |a: App| lowercase(a.bundle) == needle;
    let in_name = |a: App| exists|n: int| occurs_at(lowercase(a.name), needle, n);
    let in_bundle = |a: App| exists|n: int| occurs_at(lowercase(a.bundle), needle, n);
    lemma_best_apps(apps, name);
    lemma_filter_some(apps, by_name);
    lemma_filter_some(apps, by_bundle);
    lemma_filter_some(apps, in_name);
    lemma_filter_some(apps, in_bundle);
    if occurs_at(lowercase(apps[j].name), needle, k) {
        assert(in_name(apps[j]));
        if (forall|m: int, n: int|
            0 <= m < j ==> !(#[trigger] occurs_at(lowercase(apps[m].name), needle, n))) && (forall|
            m: int,
        |
            0 <= m < apps.len() ==> lowercase((#[trigger] apps[m]).name) != needle && lowercase(
                apps[m].bundle,
            ) != needle) {
            assert forall|m: int| 0 <= m < j implies !in_name(#[trigger] apps[m]) by {}
            lemma_first_kept(apps, in_name, j);
            assert(!(exists|m: int| 0 <= m < apps.len() && by_name(#[trigger] apps[m])));
            assert(!(exists|m: int| 0 <= m < apps.len() && by_bundle(#[trigger] apps[m])));
        }
    }
    if occurs_at(lowercase(apps[j].bundle), needle, k) {
        assert(in_bundle(apps[j]));
    }
}

proof fn lemma_first_kept(apps: Seq<App>, p: spec_fn(App) -> bool, j: int)
    requires
        0 <= j < apps.len(),
        p(apps[j]),
        forall|m: int| 0 <= m < j ==> !p(#[trigger] apps[m]),
    ensures
        apps.filter(p).len() > 0,
        apps.filter(p)[0] == apps[j],
    decreases apps.len(),
{
    reveal(Seq::filter);
    let front = apps.drop_last();
    if j < front.len() {
        assert(front[j] == apps[j]);
        assert forall|m: int| 0 <= m < j implies !p(#[trigger] front[m]) by {
            assert(front[m] == apps[m]);
        }
        lemma_first_kept(front, p, j);
    } else {
        lemma_filter_some(front, p);
        if front.filter(p).len() > 0 {
            let k = choose|k: int| 0 <= k < front.len() && p(#[trigger] front[k]);
            assert(apps[k] == front[k]);
        }
    }
}

/// A text comes before another where it has the smaller character at the first
/// place at which they differ, or where the other only goes on.
pub proof fn lemma_text_before(a: Seq<char>, b: Seq<char>)
    ensures
        text_before(a, b) <==> exists|k: int|
            #![trigger a.take(k)]
            0 <= k <= a.len() && k < b.len() && a.take(k) == b.take(k) && (k == a.len() || a[k]
                < b[k]),
    decreases a.len(),
{
    if b.len() > 0 && a.len() > 0 && a[0] == b[0] {
        let x = a.skip(1);
        let y = b.skip(1);
        lemma_text_before(x, y);
        if text_before(a, b) {
            let k = choose|k: int|
                #![trigger x.take(k)]
                0 <= k <= x.len() && k < y.len() && x.take(k) == y.take(k) && (k == x.len() || x[k]
                    < y[k]);
            assert(a.take(k + 1) =~= seq![a[0]] + x.take(k));
            assert(b.take(k + 1) =~= seq![b[0]] + y.take(k));
            assert(0 <= k + 1 <= a.len() && a.take(k + 1) == b.take(k + 1));
        }
        if exists|k: int|
            #![trigger a.take(k)]
            0 <= k <= a.len() && k < b.len() && a.take(k) == b.take(k) && (k == a.len() || a[k]
                < b[k]) {
            let k = choose|k: int|
                #![trigger a.take(k)]
                0 <= k <= a.len() && k < b.len() && a.take(k) == b.take(k) && (k == a.len() || a[k]
                    < b[k]);
            assert(k > 0);
            assert(x.take(k - 1) =~= a.take(k).skip(1));
            assert(y.take(k - 1) =~= b.take(k).skip(1));
        }
    } else if b.len() > 0 {
        assert(a.take(0) =~= b.take(0));
        if exists|k: int|
            #![trigger a.take(k)]
            0 <= k <= a.len() && k < b.len() && a.take(k) == b.take(k) && (k == a.len() || a[k]
                < b[k]) {
            let k = choose|k: int|
                #![trigger a.take(k)]
                0 <= k <= a.len() && k < b.len() && a.take(k) == b.take(k) && (k == a.len() || a[k]
                    < b[k]);
            if k > 0 {
                assert(a.take(k)[0] == b.take(k)[0]);
            }
        }
    }
}

/// Applications whose names in lower case are the same stand in the list in the
/// order in which they were given.
pub proof fn lemma_listing_keeps_order(apps: Seq<App>, key: Seq<char>)
    ensures
        listing(apps).filter(|a: App| lowercase(a.name) == key) == apps.filter(
            |a: App| a.name.len() > 0 && a.bundle.len() > 0 && lowercase(a.name) == key,
        ),
    decreases apps.len(),
{
    let of_key = |a: App| lowercase(a.name) == key;
    let given = |a: App| a.name.len() > 0 && a.bundle.len() > 0 && lowercase(a.name) == key;
    reveal(Seq::filter);
    if apps.len() > 0 {
        let front = apps.drop_last();
        let app = apps.last();
        lemma_listing_keeps_order(front, key);
        if app.name.len() > 0 && app.bundle.len() > 0 {
            lemma_listing(front);
            lemma_put_keeps_order(listing(front), app, key);
        }
    } else {
        assert(listing(apps).filter(of_key) =~= apps.filter(given));
    }
}

proof fn lemma_put_keeps_order(list: Seq<App>, app: App, key: Seq<char>)
    requires
        in_order(list),
    ensures
        put_in_order(list, app).filter(|a: App| lowercase(a.name) == key) == list.filter(
            |a: App| lowercase(a.name) == key,
        ) + if lowercase(app.name) == key {
            seq![app]
        } else {
            Seq::empty()
        },
    decreases list.len(),
{
    let of_key = |a: App| lowercase(a.name) == key;
    let own = if lowercase(app.name) == key {
        seq![app]
    } else {
        Seq::empty()
    };
    reveal(Seq::filter);
    let r = put_in_order(list, app);
    if list.len() > 0 && text_before(list_key(app), list_key(list.last())) {
        let front = list.drop_last();
        assert forall|i: int, j: int| 0 <= i < j < front.len() implies !text_before(
            list_key(#[trigger] front[j]),
            list_key(#[trigger] front[i]),
        ) by {
            assert(front[i] == list[i] && front[j] == list[j]);
        }
        lemma_put_keeps_order(front, app, key);
        let part = put_in_order(front, app);
        assert(r.drop_last() =~= part);
        assert(r.last() == list.last());
        lemma_text_before_one_way(list_key(app), list_key(list.last()));
        if lowercase(app.name) == key {
            assert(!of_key(list.last()));
        }
        assert(r.filter(of_key) =~= list.filter(of_key) + own);
    } else {
        assert(r.drop_last() =~= list);
        assert(r.filter(of_key) =~= list.filter(of_key) + own);
    }
}

/// A padded text is the text with spaces alone beside it, as wide as was asked for,
/// or the text itself where it is as wide.
pub proof fn lemma_padded(s: Seq<char>, width: nat)
    ensures
        ({
            let left = pad_left(s, width);
            let right = pad_right(s, width);
            let n = if s.len() < width {
                width
            } else {
                s.len()
            };
            &&& left.len() == n && right.len() == n
            &&& right.take(s.len() as int) == s && left.skip(n - s.len()) == s
            &&& forall|k: int| s.len() <= k < n ==> #[trigger] right[k] == ' '
            &&& forall|k: int| 0 <= k < n - s.len() ==> #[trigger] left[k] == ' '
        }),
{
    let left = pad_left(s, width);
    let right = pad_right(s, width);
    assert(right.take(s.len() as int) =~= s);
    assert(left.skip(left.len() - s.len()) =~= s);
}

/// The hint names every application that it is about, by its process, its name and
/// its bundle identifier, in their order, each on a line of its own.
pub proof fn lemma_hint_lines(apps: Seq<App>, app: App)
    ensures
        hint_lines(apps.push(app)) == hint_lines(apps) + ("\n  pid="@ + pad_right(
            signed_decimal(app.pid),
            6,
        ) + "  "@ + app.name + "  ["@ + app.bundle + "]"@),
        hint_lines(Seq::empty()) == Seq::<char>::empty(),
{
    assert(apps.push(app).drop_last() =~= apps);
    assert(hint_lines(apps.push(app)) =~= hint_lines(apps) + ("\n  pid="@ + pad_right(
        signed_decimal(app.pid),
        6,
    ) + "  "@ + app.name + "  ["@ + app.bundle + "]"@));
}

/// What the tiers are called.
pub proof fn lemma_tier_labels(apps: Seq<App>, name: Seq<char>)
    ensures
        hint(apps, name, 0) == "note: "@ + decimal(apps.len()) + " apps matched '"@ + name
            + "' (tier="@ + "exact/name"@
            + "), using first \u{2014} be more specific to pick:"@ + hint_lines(apps),
        tier_label(1) == "exact/bundle"@,
        tier_label(2) == "substring/name"@,
        tier_label(3) == "substring/bundle"@,
{
}

/// The tier that is found is the best in which there is an application.
pub proof fn lemma_best_tier(apps: Seq<App>, name: Seq<char>)
    ensures
        ({
            let needle = lowercase(name);
            let by_name = exists|j: int|
                0 <= j < apps.len() && lowercase((#[trigger] apps[j]).name) == needle;
            let by_bundle = exists|j: int|
                0 <= j < apps.len() && lowercase((#[trigger] apps[j]).bundle) == needle;
            &&& best_tier(apps, name) == Some(0usize) <==> by_name
            &&& best_tier(apps, name) == Some(1usize) <==> !by_name && by_bundle
            &&& best_tier(apps, name) is None <==> best_apps(apps, name).len() == 0
            &&& best_tier(apps, name) matches Some(t) ==> t <= 3
        }),
{
    let needle = lowercase(name);
    let by_name = |a: App| lowercase(a.name) == needle;
    let by_bundle = |a: App| lowercase(a.bundle) == needle;
    lemma_same_filter(apps, in_tier(name, 0), by_name);
    lemma_filter_some(apps, by_name);
    if !(exists|j: int| 0 <= j < apps.len() && by_name(#[trigger] apps[j])) {
        lemma_same_filter(apps, in_tier(name, 1), by_bundle);
        lemma_filter_some(apps, by_bundle);
    }
    assert((exists|j: int| 0 <= j < apps.len() && by_name(#[trigger] apps[j])) <==> (exists|j: int|
        0 <= j < apps.len() && lowercase((#[trigger] apps[j]).name) == needle)) by {
        if exists|j: int| 0 <= j < apps.len() && lowercase((#[trigger] apps[j]).name) == needle {
            let j = choose|j: int|
                0 <= j < apps.len() && lowercase((#[trigger] apps[j]).name) == needle;
            assert(by_name(apps[j]));
        }
    }
    assert((exists|j: int| 0 <= j < apps.len() && by_bundle(#[trigger] apps[j])) <==> (exists|
        j: int,
    |
        0 <= j < apps.len() && lowercase((#[trigger] apps[j]).bundle) == needle)) by {
        if exists|j: int| 0 <= j < apps.len() && lowercase((#[trigger] apps[j]).bundle) == needle {
            let j = choose|j: int|
                0 <= j < apps.len() && lowercase((#[trigger] apps[j]).bundle) == needle;
            assert(by_bundle(apps[j]));
        }
    }
}

/// What is known of an application.
pub proof fn lemma_app_view(app: AppInfo)
    ensures
        app@.pid == app.pid && app@.name == app.name@ && app@.bundle == app.bundle@,
{
}

} // verus!
