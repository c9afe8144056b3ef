//! Selectors on the DOM classes of an element.

use vstd::prelude::*;
use crate::text;
use crate::text::{
    lemma_missing_char, lemma_split_append, occurs_at, same_text, spaces, split, split_text,
    str_views, trim, trim_char_end, trim_char_end_text, trim_end_by, trim_start_by, trim_text,
    views,
};
use crate::tree::copy_strings;
use crate::unicode::ascii_alphanumeric;

verus! {

/// A parsed CSS-class selector for matching `AXDOMClassList`.
///
/// Supports:
///   - `.class`                has the class
///   - `.class1.class2`        has all classes
///   - `.class1, .class2`      has what one of the groups asks for
///   - `.class1:not(.class2)`  has `class1` and not `class2`
#[derive(Debug)]
pub struct DOMSelector {
    /// At least one group must match.
    pub groups: Vec<DOMSelectorGroup>,
}

/// One group of a selector.
#[derive(Debug)]
pub struct DOMSelectorGroup {
    /// Classes that must be present.
    pub required: Vec<String>,
    /// Classes that must not be present.
    pub excluded: Vec<String>,
}

/// What one group of a selector asks for.
pub ghost struct ClassGroup {
    pub required: Seq<Seq<char>>,
    pub excluded: Seq<Seq<char>>,
}

impl View for DOMSelectorGroup {
    type V = ClassGroup;

    open spec fn view(&self) -> ClassGroup {
        ClassGroup { required: views(self.required@), excluded: views(self.excluded@) }
    }
}

impl View for DOMSelector {
    type V = Seq<ClassGroup>;

    open spec fn view(&self) -> Seq<ClassGroup> {
        Seq::new(self.groups@.len(), |i: int| self.groups@[i]@)
    }
}

/// The texts of `parts` that are not blank, without the white space around them.
pub open spec fn trimmed_names(parts: Seq<Seq<char>>) -> Seq<Seq<char>>
    decreases parts.len(),
{
    if parts.len() == 0 {
        Seq::empty()
    } else {
        let before = trimmed_names(parts.drop_last());
        let name = trim(parts.last());
        if name.len() > 0 {
            before.push(name)
        } else {
            before
        }
    }
}

/// The class names that `s` lists, separated by dots.
pub open spec fn class_names(s: Seq<char>) -> Seq<Seq<char>> {
    trimmed_names(split(s, "."@))
}

/// The class names in the parts of a group that follow its `:not(`.
pub open spec fn negated_names(parts: Seq<Seq<char>>) -> Seq<Seq<char>>
    decreases parts.len(),
{
    if parts.len() == 0 {
        Seq::empty()
    } else {
        negated_names(parts.drop_last()) + class_names(trim_char_end(parts.last(), ')'))
    }
}

/// The group that `s` writes.
pub open spec fn parse_group(s: Seq<char>) -> ClassGroup {
    let parts = split(trim(s), ":not("@);
    ClassGroup { required: class_names(parts[0]), excluded: negated_names(parts.skip(1)) }
}

/// The groups that the selector `s` writes, separated by commas.
pub open spec fn parse_selector(s: Seq<char>) -> Seq<ClassGroup> {
    let parts = split(s, ","@);
    Seq::new(parts.len(), |i: int| parse_group(parts[i]))
}

/// The classes hold everything that `g` requires and nothing that it excludes.
pub open spec fn group_accepts(g: ClassGroup, classes: Seq<Seq<char>>) -> bool {
    &&& forall|i: int| 0 <= i < g.required.len() ==> classes.contains(#[trigger] g.required[i])
    &&& forall|i: int| 0 <= i < g.excluded.len() ==> !classes.contains(#[trigger] g.excluded[i])
}

/// The classes meet one of the groups.
pub open spec fn selector_accepts(groups: Seq<ClassGroup>, classes: Seq<Seq<char>>) -> bool {
    exists|i: int| 0 <= i < groups.len() && group_accepts(#[trigger] groups[i], classes)
}

/// The classes, each with a dot before it.
pub open spec fn dotted(classes: Seq<Seq<char>>) -> Seq<char>
    decreases classes.len(),
{
    if classes.len() == 0 {
        Seq::empty()
    } else {
        dotted(classes.drop_last()) + "."@ + classes.last()
    }
}

/// Appends to `names` the class names that `s` lists.
fn push_class_names(s: &str, names: &mut Vec<String>)
    ensures
        views(final(names)@) == views(old(names)@) + class_names(s@),
{
    proof {
        reveal_strlit(".");
    }
    let parts = split_text(s, ".");
    let ghost all = str_views(parts@);
    let ghost start = views(names@);
    assert(start + trimmed_names(all.take(0)) =~= start);
    for i in 0..parts.len()
        invariant
            all == str_views(parts@),
            views(names@) == start + trimmed_names(all.take(i as int)),
    {
        proof {
            assert(all.take(i + 1).drop_last() =~= all.take(i as int));
            assert(all.take(i + 1).last() == parts@[i as int]@);
        }
        let name = trim_text(parts[i]);
        if !name.is_empty() {
            let ghost before = names@;
            names.push(name.to_owned());
            assert(views(names@) =~= views(before).push(name@));
            assert(start + trimmed_names(all.take(i as int)).push(name@) =~= (start
                + trimmed_names(all.take(i as int))).push(name@));
        }
    }
    assert(all.take(parts@.len() as int) =~= all);
}

fn parse_one_group(s: &str) -> (r: DOMSelectorGroup)
    ensures
        r@ == parse_group(s@),
{
    proof {
        reveal_strlit(":not(");
    }
    let parts = split_text(trim_text(s), ":not(");
    let ghost all = str_views(parts@);
    let mut required: Vec<String> = Vec::new();
    let mut excluded: Vec<String> = Vec::new();
    push_class_names(parts[0], &mut required);
    assert(views(Seq::<String>::empty()) + class_names(all[0]) =~= class_names(all[0]));
    let ghost rest = all.skip(1);
    assert(views(excluded@) =~= negated_names(rest.take(0)));
    for i in 1..parts.len()
        invariant
            all == str_views(parts@),
            rest == all.skip(1),
            views(excluded@) == negated_names(rest.take(i - 1)),
    {
        proof {
            assert(rest.take(i as int).drop_last() =~= rest.take(i - 1));
            assert(rest.take(i as int).last() == parts@[i as int]@);
        }
        push_class_names(trim_char_end_text(parts[i], ')'), &mut excluded);
    }
    assert(rest.take(parts@.len() - 1) =~= rest);
    DOMSelectorGroup { required, excluded }
}

/// Whether `name` is among `classes`.
pub fn has_name(classes: &Vec<String>, name: &str) -> (r: bool)
    ensures
        r == views(classes@).contains(name@),
{
    for i in 0..classes.len()
        invariant
            forall|j: int| 0 <= j < i ==> classes@[j]@ != name@,
    {
        if same_text(classes[i].as_str(), name) {
            assert(views(classes@)[i as int] == name@);
            return true;
        }
    }
    false
}

impl DOMSelectorGroup {
    fn matches(&self, classes: &Vec<String>) -> (r: bool)
        ensures
            r == group_accepts(self@, views(classes@)),
    {
        for i in 0..self.required.len()
            invariant
                forall|j: int|
                    0 <= j < i ==> views(classes@).contains(#[trigger] self@.required[j]),
        {
            if !has_name(classes, self.required[i].as_str()) {
                assert(!views(classes@).contains(self@.required[i as int]));
                return false;
            }
        }
        for i in 0..self.excluded.len()
            invariant
                forall|j: int|
                    0 <= j < self@.required.len() ==> views(classes@).contains(
                        #[trigger] self@.required[j],
                    ),
                forall|j: int|
                    0 <= j < i ==> !views(classes@).contains(#[trigger] self@.excluded[j]),
        {
            if has_name(classes, self.excluded[i].as_str()) {
                assert(views(classes@).contains(self@.excluded[i as int]));
                return false;
            }
        }
        true
    }
}

impl Clone for DOMSelectorGroup {
    fn clone(&self) -> (r: Self)
        ensures
            r@ == self@,
    {
        DOMSelectorGroup {
            required: copy_strings(&self.required),
            excluded: copy_strings(&self.excluded),
        }
    }
}

impl DOMSelector {
    /// Parses a CSS-class selector.
    pub fn parse(selector: &str) -> (r: Self)
        ensures
            r@ == parse_selector(selector@),
    {
        proof {
            reveal_strlit(",");
        }
        let parts = split_text(selector, ",");
        let ghost all = str_views(parts@);
        let mut groups: Vec<DOMSelectorGroup> = Vec::new();
        for i in 0..parts.len()
            invariant
                all == str_views(parts@),
                groups@.len() == i,
                forall|j: int| 0 <= j < i ==> (#[trigger] groups@[j])@ == parse_group(all[j]),
        {
            groups.push(parse_one_group(parts[i]));
        }
        let r = DOMSelector { groups };
        assert(r@ =~= parse_selector(selector@));
        r
    }

    /// Whether a list of DOM classes matches this selector.
    pub fn matches(&self, classes: &Vec<String>) -> (r: bool)
        ensures
            r == selector_accepts(self@, views(classes@)),
    {
        for i in 0..self.groups.len()
            invariant
                forall|j: int| 0 <= j < i ==> !group_accepts(#[trigger] self@[j], views(classes@)),
        {
            if self.groups[i].matches(classes) {
                assert(group_accepts(self@[i as int], views(classes@)));
                return true;
            }
        }
        false
    }
}

impl Clone for DOMSelector {
    fn clone(&self) -> (r: Self)
        ensures
            r@ == self@,
    {
        let mut groups: Vec<DOMSelectorGroup> = Vec::new();
        for i in 0..self.groups.len()
            invariant
                groups@.len() == i,
                forall|j: int| 0 <= j < i ==> (#[trigger] groups@[j])@ == self.groups@[j]@,
        {
            groups.push(self.groups[i].clone());
        }
        let r = DOMSelector { groups };
        assert(r@ =~= self@);
        r
    }
}

/// The classes, each with a dot before it.
pub fn dotted_classes(classes: &Vec<String>) -> (r: String)
    ensures
        r@ == dotted(views(classes@)),
{
    let mut out = String::new();
    let ghost all = views(classes@);
    for i in 0..classes.len()
        invariant
            all == views(classes@),
            out@ == dotted(all.take(i as int)),
    {
        proof {
            assert(all.take(i + 1).drop_last() =~= all.take(i as int));
            assert(all.take(i + 1).last() == classes@[i as int]@);
        }
        out.append(".");
        out.append(classes[i].as_str());
    }
    assert(all.take(classes@.len() as int) =~= all);
    out
}

/// `c` can stand in a simple name.
pub open spec fn name_char(c: char) -> bool {
    ascii_alphanumeric(c) || c == '-' || c == '_'
}

/// The class name is made of ASCII letters, digits, `-` and `_`.
pub open spec fn simple_class(name: Seq<char>) -> bool {
    name.len() > 0 && forall|k: int| 0 <= k < name.len() ==> name_char(#[trigger] name[k])
}

/// All the class names are simple.
pub open spec fn simple_classes(names: Seq<Seq<char>>) -> bool {
    forall|k: int| 0 <= k < names.len() ==> simple_class(#[trigger] names[k])
}

/// What stands in the names, each with a dot before it.
pub proof fn lemma_dotted_chars(names: Seq<Seq<char>>)
    requires
        simple_classes(names),
    ensures
        forall|k: int|
            0 <= k < dotted(names).len() ==> name_char(#[trigger] dotted(names)[k]) || dotted(
                names,
            )[k] == '.',
        names.len() > 0 ==> dotted(names).len() > 0 && dotted(names)[0] == '.' && name_char(
            dotted(names).last(),
        ),
    decreases names.len(),
{
    reveal_strlit(".");
    if names.len() > 0 {
        let front = names.drop_last();
        assert forall|k: int| 0 <= k < front.len() implies simple_class(#[trigger] front[k]) by {
            assert(front[k] == names[k]);
        }
        lemma_dotted_chars(front);
        let last = names[names.len() - 1];
        assert(simple_class(last));
        let s = dotted(names);
        let n = dotted(front).len() as int;
        assert(s == dotted(front) + "."@ + last);
        assert forall|k: int| 0 <= k < s.len() implies name_char(#[trigger] s[k]) || s[k]
            == '.' by {
            if k < n {
                assert(s[k] == dotted(front)[k]);
            } else if k == n {
                assert(s[k] == '.');
            } else {
                assert(s[k] == last[k - n - 1]);
            }
        }
        assert(s.last() == last[last.len() - 1]);
        if front.len() > 0 {
            assert(s[0] == dotted(front)[0]);
        } else {
            assert(s[0] == '.');
        }
    }
}

/// The names read back from the text in which each has a dot before it.
proof fn lemma_dotted_names(names: Seq<Seq<char>>)
    requires
        simple_classes(names),
    ensures
        split(dotted(names), "."@) == seq![Seq::<char>::empty()] + names,
        class_names(dotted(names)) == names,
    decreases names.len(),
{
    reveal_strlit(".");
    let parts = split(dotted(names), "."@);
    if names.len() == 0 {
        lemma_missing_char(dotted(names), "."@, 0);
        assert(parts =~= seq![Seq::<char>::empty()] + names);
        assert(parts.drop_last() =~= Seq::empty());
        assert(trim(parts.last()).len() == 0);
        assert(trimmed_names(parts.drop_last()) =~= Seq::empty());
    } else {
        let front = names.drop_last();
        let last = names[names.len() - 1];
        assert forall|k: int| 0 <= k < front.len() implies simple_class(#[trigger] front[k]) by {
            assert(front[k] == names[k]);
        }
        lemma_dotted_names(front);
        assert(simple_class(last));
        lemma_split_append(dotted(front), "."@, last);
        assert forall|k: int| 0 <= k < last.len() implies #[trigger] last[k] != '.' by {
            assert(name_char(last[k]));
        }
        lemma_missing_char(last, "."@, 0);
        assert(split(last, "."@) =~= seq![last]);
        assert(parts =~= seq![Seq::<char>::empty()] + names);
        assert(parts.drop_last() =~= split(dotted(front), "."@));
        assert(parts.last() == last);
        assert(name_char(last[0]) && name_char(last[last.len() - 1]));
        assert(!spaces()(last[0]) && !spaces()(last.last()));
        assert(trim(last) == last);
        assert(trimmed_names(parts) =~= front.push(last));
        assert(front.push(last) =~= names);
    }
}

/// A selector `.a.b` accepts exactly what has all of its classes.
pub proof fn lemma_dotted_selector(names: Seq<Seq<char>>, classes: Seq<Seq<char>>)
    requires
        simple_classes(names),
    ensures
        selector_accepts(parse_selector(dotted(names)), classes) <==> forall|k: int|
            0 <= k < names.len() ==> classes.contains(#[trigger] names[k]),
{
    let s = dotted(names);
    lemma_dotted_chars(names);
    lemma_dotted_names(names);
    reveal_strlit(",");
    reveal_strlit(":not(");
    assert forall|k: int| 0 <= k < s.len() implies #[trigger] s[k] != ',' && s[k] != ':' by {
        assert(name_char(s[k]) || s[k] == '.');
    }
    lemma_missing_char(s, ","@, 0);
    lemma_missing_char(s, ":not("@, 0);
    if s.len() > 0 {
        assert(name_char(s[0]) || s[0] == '.');
        assert(name_char(s[s.len() - 1]) || s[s.len() - 1] == '.');
        assert(!spaces()(s[0]) && !spaces()(s.last()));
    }
    assert(trim(s) == s);
    assert(split(s, ","@) =~= seq![s]);
    let parts = split(s, ":not("@);
    assert(parts =~= seq![s]);
    assert(parts.skip(1) =~= Seq::empty());
    let group = parse_group(s);
    assert(group.required == names);
    assert(group.excluded =~= Seq::empty());
    let groups = parse_selector(s);
    assert(groups.len() == 1 && groups[0] == group);
    if selector_accepts(groups, classes) {
        let i = choose|i: int|
            0 <= i < groups.len() && group_accepts(#[trigger] groups[i], classes);
        assert(groups[i] == group);
        assert forall|k: int| 0 <= k < names.len() implies classes.contains(
            #[trigger] names[k],
        ) by {
            assert(classes.contains(group.required[k]));
        }
    } else {
        assert(!group_accepts(groups[0], classes));
    }
}

/// A selector `a, b` accepts what `a` accepts and what `b` accepts.
pub proof fn lemma_either_selector(a: Seq<char>, b: Seq<char>, classes: Seq<Seq<char>>)
    ensures
        selector_accepts(parse_selector(a + ","@ + b), classes) <==> selector_accepts(
            parse_selector(a),
            classes,
        ) || selector_accepts(parse_selector(b), classes),
{
    reveal_strlit(",");
    lemma_split_append(a, ","@, b);
    let xs = parse_selector(a);
    let ys = parse_selector(b);
    let all = parse_selector(a + ","@ + b);
    assert(all =~= xs + ys);
    if selector_accepts(all, classes) {
        let i = choose|i: int| 0 <= i < all.len() && group_accepts(#[trigger] all[i], classes);
        if i < xs.len() {
            assert(group_accepts(xs[i], classes));
        } else {
            assert(group_accepts(ys[i - xs.len()], classes));
        }
    }
    if selector_accepts(xs, classes) {
        let i = choose|i: int| 0 <= i < xs.len() && group_accepts(#[trigger] xs[i], classes);
        assert(all[i] == xs[i]);
    }
    if selector_accepts(ys, classes) {
        let i = choose|i: int| 0 <= i < ys.len() && group_accepts(#[trigger] ys[i], classes);
        assert(all[xs.len() + i] == ys[i]);
    }
}

/// A class is there or it is not: every list of classes meets the one group or
/// the other.
pub proof fn lemma_either_class(classes: Seq<Seq<char>>)
    ensures
        selector_accepts(parse_selector(".a,:not(.a)"@), classes),
{
    reveal_strlit(".a,:not(.a)");
    reveal_strlit(".");
    reveal_strlit(",");
    reveal_strlit(":not(");
    let name = seq!['a'];
    let with = "."@ + name;
    let without = ":not("@ + with + seq![')'];
    assert(".a,:not(.a)"@ =~= with + ","@ + without);
    lemma_either_selector(with, without, classes);
    if classes.contains(name) {
        let names = seq![name];
        assert(names.drop_last() =~= Seq::empty());
        assert(dotted(names.drop_last()) =~= Seq::empty());
        assert(dotted(names) =~= with);
        assert(name_char('a'));
        assert(simple_classes(names));
        lemma_dotted_selector(names, classes);
        assert(selector_accepts(parse_selector(with), classes));
    } else {
        lemma_without_class(name, without, classes);
    }
}

#[verifier::rlimit(50)]
proof fn lemma_without_class(name: Seq<char>, without: Seq<char>, classes: Seq<Seq<char>>)
    requires
        name == seq!['a'],
        without == ":not("@ + ("."@ + name) + seq![')'],
        !classes.contains(name),
    ensures
        selector_accepts(parse_selector(without), classes),
{
    reveal_strlit(".");
    reveal_strlit(",");
    reveal_strlit(":not(");
    lemma_missing_char(without, ","@, 0);
    assert(split(without, ","@) =~= seq![without]);
    assert(!spaces()(without[0]) && !spaces()(without.last()));
    assert(trim(without) == without);
    let none = Seq::<char>::empty();
    let tail = "."@ + name + seq![')'];
    assert(without =~= none + ":not("@ + tail);
    lemma_split_append(none, ":not("@, tail);
    lemma_missing_char(none, ":not("@, 0);
    lemma_missing_char(tail, ":not("@, 0);
    let parts = split(without, ":not("@);
    assert(parts =~= seq![none, tail]);
    assert(parts[0] == none);
    lemma_missing_char(none, "."@, 0);
    assert(split(none, "."@) =~= seq![none]);
    assert(seq![none].drop_last() =~= Seq::empty());
    assert(trim(none) =~= none);
    assert(trimmed_names(seq![none].drop_last()) =~= Seq::empty());
    assert(trim(seq![none].last()).len() == 0);
    assert(trimmed_names(seq![none]) =~= Seq::empty());
    let rest = parts.skip(1);
    assert(rest =~= seq![tail]);
    assert(rest.drop_last() =~= Seq::empty());
    let with = "."@ + name;
    assert(trim_char_end(tail, ')') =~= with) by {
        let drop = text::only(')');
        assert(tail.drop_last() =~= with);
        assert(drop(tail.last()));
        assert(!drop(with.last()));
        assert(trim_end_by(with, drop) == with);
    }
    let names = seq![name];
    assert(names.drop_last() =~= Seq::empty());
    assert(dotted(names.drop_last()) =~= Seq::empty());
    assert(dotted(names) =~= with);
    assert(name_char('a'));
    assert(simple_classes(names));
    lemma_dotted_names(names);
    assert(negated_names(rest.drop_last()) =~= Seq::empty());
    assert(rest.last() == tail);
    assert(class_names(with) == names);
    assert(negated_names(rest) =~= names);
    let group = parse_group(without);
    let groups = parse_selector(without);
    assert(groups.len() == 1 && groups[0] == group);
    assert(group.required =~= Seq::empty());
    assert(group.excluded =~= names);
    assert(group_accepts(groups[0], classes));
}

/// White space around a group does not count.
pub proof fn lemma_group_trimmed(s: Seq<char>)
    ensures
        parse_group(seq![' '] + s) == parse_group(s),
{
    let t = seq![' '] + s;
    assert(spaces()(t[0]));
    assert(t.skip(1) =~= s);
    assert(trim_start_by(t, spaces()) == trim_start_by(s, spaces()));
}

/// A selector `.a.b:not(.c.d)` accepts what has all of its classes and none of those
/// in `:not(..)`.
#[verifier::rlimit(50)]
pub proof fn lemma_not_selector(
    names: Seq<Seq<char>>,
    others: Seq<Seq<char>>,
    classes: Seq<Seq<char>>,
)
    requires
        simple_classes(names),
        simple_classes(others),
        others.len() > 0,
    ensures
        selector_accepts(
            parse_selector(dotted(names) + ":not("@ + dotted(others) + ")"@),
            classes,
        ) <==> (forall|k: int|
            0 <= k < names.len() ==> classes.contains(#[trigger] names[k])) && (forall|k: int|
            0 <= k < others.len() ==> !classes.contains(#[trigger] others[k])),
{
    let s = dotted(names) + ":not("@ + dotted(others) + ")"@;
    let tail = dotted(others) + ")"@;
    lemma_not_selector_chars(names, others, s);
    reveal_strlit(",");
    lemma_missing_char(s, ","@, 0);
    assert(split(s, ","@) =~= seq![s]);
    assert(trim(s) == s);
    lemma_not_selector_parts(names, others, s);
    let parts = split(s, ":not("@);
    assert(parts == seq![dotted(names), tail]);
    let rest = parts.skip(1);
    assert(rest =~= seq![tail]);
    assert(rest.drop_last() =~= Seq::empty());
    assert(negated_names(rest.drop_last()) =~= Seq::empty());
    assert(rest.last() == tail);
    lemma_tail_trimmed(others, tail);
    lemma_dotted_names(names);
    lemma_dotted_names(others);
    assert(negated_names(rest) =~= others);
    let group = parse_group(s);
    assert(group.required == names);
    assert(group.excluded == others);
    let groups = parse_selector(s);
    assert(groups.len() == 1 && groups[0] == group);
    if selector_accepts(groups, classes) {
        let i = choose|i: int|
            0 <= i < groups.len() && group_accepts(#[trigger] groups[i], classes);
        assert(i == 0);
    }
    if group_accepts(group, classes) {
        assert(group_accepts(groups[0], classes));
    }
}

proof fn lemma_not_selector_chars(names: Seq<Seq<char>>, others: Seq<Seq<char>>, s: Seq<char>)
    requires
        simple_classes(names),
        simple_classes(others),
        s == dotted(names) + ":not("@ + dotted(others) + ")"@,
    ensures
        forall|k: int| 0 <= k < s.len() ==> #[trigger] s[k] != ',',
        trim(s) == s,
{
    let a = dotted(names);
    let b = dotted(others);
    let n = a.len() as int;
    lemma_dotted_chars(names);
    lemma_dotted_chars(others);
    reveal_strlit(":not(");
    reveal_strlit(")");
    assert forall|k: int| 0 <= k < s.len() implies #[trigger] s[k] != ',' by {
        if k < n {
            assert(s[k] == a[k]);
            assert(name_char(a[k]) || a[k] == '.');
        } else if n + 5 <= k < n + 5 + b.len() {
            assert(s[k] == b[k - n - 5]);
            assert(name_char(b[k - n - 5]) || b[k - n - 5] == '.');
        }
    }
    if n > 0 {
        assert(s[0] == a[0]);
    } else {
        assert(s[0] == ':');
    }
    assert(!spaces()(s[0]) && !spaces()(s.last()));
}

proof fn lemma_not_selector_parts(names: Seq<Seq<char>>, others: Seq<Seq<char>>, s: Seq<char>)
    requires
        simple_classes(names),
        simple_classes(others),
        s == dotted(names) + ":not("@ + dotted(others) + ")"@,
    ensures
        split(s, ":not("@) == seq![dotted(names), dotted(others) + ")"@],
{
    let a = dotted(names);
    let tail = dotted(others) + ")"@;
    let pat = ":not("@;
    lemma_dotted_chars(names);
    lemma_dotted_chars(others);
    reveal_strlit(":not(");
    reveal_strlit(")");
    assert(s =~= a + pat + tail);
    assert forall|k: int| 0 <= k < a.len() implies #[trigger] a[k] != ':' by {
        assert(name_char(a[k]) || a[k] == '.');
    }
    assert forall|k: int| 0 <= k < tail.len() implies #[trigger] tail[k] != ':' by {
        if k < dotted(others).len() {
            assert(tail[k] == dotted(others)[k]);
            assert(name_char(dotted(others)[k]) || dotted(others)[k] == '.');
        }
    }
    assert forall|j: int| 0 <= j < a.len() && #[trigger] occurs_at(a + pat + tail, pat, j) implies j
        + pat.len() <= a.len() by {
        assert((a + pat + tail).subrange(j, j + 5)[0] == (a + pat + tail)[j]);
        assert((a + pat + tail)[j] == a[j]);
    }
    lemma_split_append(a, pat, tail);
    lemma_missing_char(a, pat, 0);
    lemma_missing_char(tail, pat, 0);
    assert(split(a, pat) =~= seq![a]);
    assert(split(tail, pat) =~= seq![tail]);
    assert(split(s, pat) =~= seq![a, tail]);
}

proof fn lemma_tail_trimmed(others: Seq<Seq<char>>, tail: Seq<char>)
    requires
        simple_classes(others),
        others.len() > 0,
        tail == dotted(others) + ")"@,
    ensures
        trim_char_end(tail, ')') == dotted(others),
{
    let drop = text::only(')');
    let b = dotted(others);
    lemma_dotted_chars(others);
    reveal_strlit(")");
    assert(tail.drop_last() =~= b);
    assert(drop(tail.last()));
    assert(name_char(b.last()));
    assert(!drop(b.last()));
    assert(trim_end_by(b, drop) == b);
}

/// A list of classes meets a selector where it meets one of its groups.
pub proof fn lemma_group_accepts(g: ClassGroup, classes: Seq<Seq<char>>)
    ensures
        selector_accepts(seq![g], classes) <==> (forall|k: int|
            0 <= k < g.required.len() ==> classes.contains(#[trigger] g.required[k])) && (forall|
            k: int,
        |
            0 <= k < g.excluded.len() ==> !classes.contains(#[trigger] g.excluded[k])),
{
    let groups = seq![g];
    if selector_accepts(groups, classes) {
        let i = choose|i: int|
            0 <= i < groups.len() && group_accepts(#[trigger] groups[i], classes);
        assert(i == 0);
    }
    if group_accepts(g, classes) {
        assert(group_accepts(groups[0], classes));
    }
}

/// The names in a selector are the texts between the dots that are not blank, without
/// the white space around them; and each further `:not(..)` adds its names.
pub proof fn lemma_names_listed(parts: Seq<Seq<char>>, p: Seq<char>)
    ensures
        trimmed_names(Seq::empty()) == Seq::<Seq<char>>::empty(),
        trim(p).len() > 0 ==> trimmed_names(parts.push(p)) == trimmed_names(parts).push(trim(p)),
        trim(p).len() == 0 ==> trimmed_names(parts.push(p)) == trimmed_names(parts),
        negated_names(Seq::empty()) == Seq::<Seq<char>>::empty(),
        negated_names(parts.push(p)) == negated_names(parts) + trimmed_names(
            split(trim_char_end(p, ')'), "."@),
        ),
{
    assert(parts.push(p).drop_last() =~= parts);
}

/// A selector has a group for each part between commas: what stands before the first
/// `:not(` names the classes to have, and the rest those not to have.
pub proof fn lemma_groups(s: Seq<char>, k: int)
    requires
        0 <= k < split(s, ","@).len(),
    ensures
        parse_selector(s).len() == split(s, ","@).len(),
        ({
            let parts = split(trim(split(s, ","@)[k]), ":not("@);
            &&& parse_selector(s)[k].required == trimmed_names(split(parts[0], "."@))
            &&& parse_selector(s)[k].excluded == negated_names(parts.skip(1))
        }),
{
}

} // verus!
