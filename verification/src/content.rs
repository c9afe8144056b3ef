//! Reading attributes of elements for output.

use vstd::prelude::*;
use crate::error::AxError;
use crate::node::AXNode;
use crate::number::{decimal, push_decimal};
use crate::text::{
    append2, chars_of, ends_with_text, join, join_texts, same_text, starts_with, starts_with_text,
    suffix, views,
};
use crate::tree::{
    attr_string, attr_string_or_empty, child_ids, children, list_attr, lists, text_attr,
    text_attr_or_empty, Element, ElementData,
};
use crate::unicode::{lowercase, to_lowercase, to_uppercase, uppercase};

verus! {

// ---------------------------------------------------------------------------
// The text of a subtree
// ---------------------------------------------------------------------------

/// How deep the text of an element is read.
pub const COLLECT_DEPTH: usize = 50;

/// The role is that of an element whose value is text.
pub open spec fn is_text_role(role: Seq<char>) -> bool {
    role == "AXStaticText"@ || role == "AXTextArea"@ || role == "AXTextField"@
}

/// The role is that of an element that stands on lines of its own.
pub open spec fn is_block_role(role: Seq<char>) -> bool {
    ||| role == "AXGroup"@
    ||| role == "AXList"@
    ||| role == "AXTable"@
    ||| role == "AXRow"@
    ||| role == "AXHeading"@
    ||| role == "AXParagraph"@
    ||| role == "AXBlockquote"@
    ||| role == "AXArticle"@
}

/// `text` with a line break at its end, where there is text and no break yet.
pub open spec fn line_broken(text: Seq<char>) -> Seq<char> {
    if text.len() > 0 && text.last() != '\n' {
        text.push('\n')
    } else {
        text
    }
}

/// `text` followed by the text of element `i` and of what lies below it, where
/// `depth` levels are read, element `i` being the first. An element on lines of
/// its own has line breaks around it.
pub open spec fn text_through(
    nodes: Seq<ElementData>,
    i: usize,
    depth: nat,
    text: Seq<char>,
) -> Seq<char>
    decreases depth, child_ids(nodes, i).len() + 1,
{
    let role = text_attr_or_empty(nodes, i, "AXRole"@);
    if depth == 0 {
        text
    } else if is_text_role(role) {
        text + text_attr_or_empty(nodes, i, "AXValue"@)
    } else if is_block_role(role) {
        line_broken(text_through_all(nodes, child_ids(nodes, i), depth, line_broken(text)))
    } else {
        text_through_all(nodes, child_ids(nodes, i), depth, text)
    }
}

/// `text` followed by the texts of the elements `ids`, one after the other, with
/// one level less than `depth`.
pub open spec fn text_through_all(
    nodes: Seq<ElementData>,
    ids: Seq<usize>,
    depth: nat,
    text: Seq<char>,
) -> Seq<char>
    decreases depth, ids.len(),
{
    if depth == 0 || ids.len() == 0 {
        text
    } else {
        text_through(
            nodes,
            ids.last(),
            (depth - 1) as nat,
            text_through_all(nodes, ids.drop_last(), depth, text),
        )
    }
}

fn has_text_role(role: &str) -> (r: bool)
    ensures
        r == is_text_role(role@),
{
    same_text(role, "AXStaticText") || same_text(role, "AXTextArea") || same_text(
        role,
        "AXTextField",
    )
}

fn has_block_role(role: &str) -> (r: bool)
    ensures
        r == is_block_role(role@),
{
    same_text(role, "AXGroup") || same_text(role, "AXList") || same_text(role, "AXTable")
        || same_text(role, "AXRow") || same_text(role, "AXHeading") || same_text(
        role,
        "AXParagraph",
    ) || same_text(role, "AXBlockquote") || same_text(role, "AXArticle")
}

fn break_line(out: &mut String)
    ensures
        final(out)@ == line_broken(old(out)@),
{
    proof {
        reveal_strlit("\n");
    }
    let text = out.as_str();
    if !text.is_empty() && !ends_with_text(text, "\n") {
        proof {
            if out@.last() == '\n' {
                assert(out@.subrange(out@.len() - 1, out@.len() as int) =~= "\n"@);
            }
        }
        out.push('\n');
    } else {
        proof {
            if out@.len() > 0 {
                assert(out@.subrange(out@.len() - 1, out@.len() as int)[0] == out@.last());
            }
        }
    }
}

/// Appends the text of an element and of what lies below it.
pub fn collect_text_inner(node: Element<'_>, max_depth: usize, out: &mut String)
    ensures
        final(out)@ == text_through(node.nodes(), node.index(), max_depth as nat, old(out)@),
    decreases max_depth,
{
    if max_depth == 0 {
        return;
    }
    let role = attr_string_or_empty(node, "AXRole");
    if has_text_role(role.as_str()) {
        let value = attr_string_or_empty(node, "AXValue");
        out.append(value.as_str());
        return;
    }
    let is_block = has_block_role(role.as_str());
    if is_block {
        break_line(out);
    }
    let ghost nodes = node.nodes();
    let ghost ids = child_ids(nodes, node.index());
    let ghost start = out@;
    let kids = children(node);
    for k in 0..kids.len()
        invariant
            max_depth > 0,
            lists(kids@, nodes, ids),
            out@ == text_through_all(nodes, ids.take(k as int), max_depth as nat, start),
    {
        assert(ids.take(k + 1).drop_last() =~= ids.take(k as int));
        collect_text_inner(kids[k], max_depth - 1, out);
    }
    assert(ids.take(kids@.len() as int) =~= ids);
    if is_block {
        break_line(out);
    }
}

/// The text of an element and of what lies below it, `max_depth` levels in all,
/// with line breaks around the elements that stand on lines of their own.
pub fn collect_text(node: &AXNode<'_>, max_depth: usize) -> (r: String)
    ensures
        r@ == text_through(node.nodes(), node.index(), max_depth as nat, Seq::empty()),
{
    let mut out = String::new();
    collect_text_inner(node.0, max_depth, &mut out);
    out
}

// ---------------------------------------------------------------------------
// Attributes
// ---------------------------------------------------------------------------

/// What can be read of an element.
#[derive(Debug)]
pub enum GetAttr {
    /// The text of the subtree, with line breaks
    Text,
    /// AXRole
    Role,
    /// AXTitle
    Title,
    /// AXDescription
    Description,
    /// AXValue
    Value,
    /// AXDOMIdentifier
    DomId,
    /// AXDOMClassList
    Classes,
    /// The actions
    Actions,
    /// The position on screen
    Position,
    /// The size
    Size,
    /// The number of children
    ChildCount,
    /// Any other attribute, by its name
    Raw(String),
}

/// What can be read of an element.
pub ghost enum Get {
    Text,
    Role,
    Title,
    Description,
    Value,
    DomId,
    Classes,
    Actions,
    Position,
    Size,
    ChildCount,
    Raw(Seq<char>),
}

impl View for GetAttr {
    type V = Get;

    open spec fn view(&self) -> Get {
        match self {
            GetAttr::Text => Get::Text,
            GetAttr::Role => Get::Role,
            GetAttr::Title => Get::Title,
            GetAttr::Description => Get::Description,
            GetAttr::Value => Get::Value,
            GetAttr::DomId => Get::DomId,
            GetAttr::Classes => Get::Classes,
            GetAttr::Actions => Get::Actions,
            GetAttr::Position => Get::Position,
            GetAttr::Size => Get::Size,
            GetAttr::ChildCount => Get::ChildCount,
            GetAttr::Raw(s) => Get::Raw(s@),
        }
    }
}

impl Clone for GetAttr {
    fn clone(&self) -> (r: Self)
        ensures
            r@ == self@,
    {
        match self {
            GetAttr::Text => GetAttr::Text,
            GetAttr::Role => GetAttr::Role,
            GetAttr::Title => GetAttr::Title,
            GetAttr::Description => GetAttr::Description,
            GetAttr::Value => GetAttr::Value,
            GetAttr::DomId => GetAttr::DomId,
            GetAttr::Classes => GetAttr::Classes,
            GetAttr::Actions => GetAttr::Actions,
            GetAttr::Position => GetAttr::Position,
            GetAttr::Size => GetAttr::Size,
            GetAttr::ChildCount => GetAttr::ChildCount,
            GetAttr::Raw(s) => GetAttr::Raw(s.clone()),
        }
    }
}

/// What `name` asks for, where `folded` is `name` in lower case.
pub open spec fn get_named(folded: Seq<char>, name: Seq<char>) -> Get {
    if folded == "text"@ {
        Get::Text
    } else if folded == "role"@ {
        Get::Role
    } else if folded == "title"@ || folded == "axtitle"@ {
        Get::Title
    } else if folded == "description"@ || folded == "desc"@ || folded == "axdescription"@ {
        Get::Description
    } else if folded == "value"@ || folded == "axvalue"@ {
        Get::Value
    } else if folded == "domid"@ || folded == "dom-id"@ || folded == "axdomidentifier"@ {
        Get::DomId
    } else if folded == "classes"@ || folded == "class"@ || folded == "axdomclasslist"@ {
        Get::Classes
    } else if folded == "actions"@ {
        Get::Actions
    } else if folded == "position"@ || folded == "pos"@ {
        Get::Position
    } else if folded == "size"@ {
        Get::Size
    } else if folded == "children"@ || folded == "child-count"@ || folded == "childcount"@ {
        Get::ChildCount
    } else {
        Get::Raw(name)
    }
}

/// The name of what can be read.
pub open spec fn get_name(g: Get) -> Seq<char> {
    match g {
        Get::Text => "text"@,
        Get::Role => "role"@,
        Get::Title => "title"@,
        Get::Description => "description"@,
        Get::Value => "value"@,
        Get::DomId => "domid"@,
        Get::Classes => "classes"@,
        Get::Actions => "actions"@,
        Get::Position => "position"@,
        Get::Size => "size"@,
        Get::ChildCount => "child-count"@,
        Get::Raw(s) => s,
    }
}

impl GetAttr {
    /// What a name asks for, in any case.
    pub fn from_name(name: &str) -> (r: GetAttr)
        ensures
            r@ == get_named(lowercase(name@), name@),
    {
        let folded = to_lowercase(name);
        Self::from_folded(folded.as_str(), name)
    }

    /// What a name asks for, where `folded` is the name in lower case.
    pub fn from_folded(folded: &str, name: &str) -> (r: GetAttr)
        ensures
            r@ == get_named(folded@, name@),
    {
        if same_text(folded, "text") {
            GetAttr::Text
        } else if same_text(folded, "role") {
            GetAttr::Role
        } else if same_text(folded, "title") || same_text(folded, "axtitle") {
            GetAttr::Title
        } else if same_text(folded, "description") || same_text(folded, "desc") || same_text(
            folded,
            "axdescription",
        ) {
            GetAttr::Description
        } else if same_text(folded, "value") || same_text(folded, "axvalue") {
            GetAttr::Value
        } else if same_text(folded, "domid") || same_text(folded, "dom-id") || same_text(
            folded,
            "axdomidentifier",
        ) {
            GetAttr::DomId
        } else if same_text(folded, "classes") || same_text(folded, "class") || same_text(
            folded,
            "axdomclasslist",
        ) {
            GetAttr::Classes
        } else if same_text(folded, "actions") {
            GetAttr::Actions
        } else if same_text(folded, "position") || same_text(folded, "pos") {
            GetAttr::Position
        } else if same_text(folded, "size") {
            GetAttr::Size
        } else if same_text(folded, "children") || same_text(folded, "child-count") || same_text(
            folded,
            "childcount",
        ) {
            GetAttr::ChildCount
        } else {
            GetAttr::Raw(name.to_owned())
        }
    }

    /// The name.
    pub fn name(&self) -> (r: String)
        ensures
            r@ == get_name(self@),
    {
        match self {
            GetAttr::Text => "text".to_owned(),
            GetAttr::Role => "role".to_owned(),
            GetAttr::Title => "title".to_owned(),
            GetAttr::Description => "description".to_owned(),
            GetAttr::Value => "value".to_owned(),
            GetAttr::DomId => "domid".to_owned(),
            GetAttr::Classes => "classes".to_owned(),
            GetAttr::Actions => "actions".to_owned(),
            GetAttr::Position => "position".to_owned(),
            GetAttr::Size => "size".to_owned(),
            GetAttr::ChildCount => "child-count".to_owned(),
            GetAttr::Raw(s) => s.clone(),
        }
    }
}

/// Every name reads back as what it names.
pub proof fn lemma_get_names_read_back(g: Get)
    requires
        g !is Raw,
    ensures
        get_named(get_name(g), get_name(g)) == g,
{
    reveal_strlit("text");
    reveal_strlit("role");
    reveal_strlit("title");
    reveal_strlit("axtitle");
    reveal_strlit("description");
    reveal_strlit("desc");
    reveal_strlit("axdescription");
    reveal_strlit("value");
    reveal_strlit("axvalue");
    reveal_strlit("domid");
    reveal_strlit("dom-id");
    reveal_strlit("axdomidentifier");
    reveal_strlit("classes");
    reveal_strlit("class");
    reveal_strlit("axdomclasslist");
    reveal_strlit("actions");
    reveal_strlit("position");
    reveal_strlit("pos");
    reveal_strlit("size");
    reveal_strlit("children");
    reveal_strlit("child-count");
    reveal_strlit("childcount");
    // Names of the same length differ in one of their first two characters.
    assert("text"@[0] == 't' && "role"@[0] == 'r' && "desc"@[0] == 'd' && "size"@[0] == 's');
    assert("title"@[0] == 't' && "value"@[0] == 'v' && "domid"@[0] == 'd');
    assert("axtitle"@[0] == 'a' && "axvalue"@[0] == 'a' && "classes"@[0] == 'c');
    assert("axtitle"@[1] == 'x' && "axvalue"@[1] == 'x' && "actions"@[1] == 'c');
    assert("classes"@[1] == 'l' && "description"@[0] == 'd' && "child-count"@[0] == 'c');
    // The others differ in their length.
    assert("text"@.len() == 4 && "role"@.len() == 4 && "title"@.len() == 5);
    assert("axtitle"@.len() == 7 && "description"@.len() == 11 && "desc"@.len() == 4);
    assert("axdescription"@.len() == 13 && "value"@.len() == 5 && "axvalue"@.len() == 7);
    assert("domid"@.len() == 5 && "dom-id"@.len() == 6 && "axdomidentifier"@.len() == 15);
    assert("classes"@.len() == 7 && "class"@.len() == 5 && "axdomclasslist"@.len() == 14);
    assert("actions"@.len() == 7 && "position"@.len() == 8 && "pos"@.len() == 3);
    assert("size"@.len() == 4 && "children"@.len() == 8 && "child-count"@.len() == 11);
    assert("childcount"@.len() == 10);
}

/// The attribute that `name` stands for, where `first` is its first character in
/// upper case: `name` itself where it begins with `AX`, and else the name with
/// `AX` put before it.
pub open spec fn raw_attribute_with(name: Seq<char>, first: Seq<char>) -> Seq<char> {
    if starts_with(name, "AX"@) {
        name
    } else if name.len() == 0 {
        "AX"@
    } else {
        "AX"@ + first + name.skip(1)
    }
}

/// The attribute that `name` stands for.
pub open spec fn raw_attribute(name: Seq<char>) -> Seq<char> {
    raw_attribute_with(name, uppercase(name[0]))
}

/// The attribute that a name stands for, where `first` is its first character in
/// upper case.
pub fn raw_attribute_name(name: &str, first: &str) -> (r: String)
    ensures
        r@ == raw_attribute_with(name@, first@),
{
    if starts_with_text(name, "AX") {
        return name.to_owned();
    }
    if name.is_empty() {
        return "AX".to_owned();
    }
    let mut out = append2("AX", first);
    out.append(suffix(name, 1));
    out
}

fn resolve_raw_attribute(name: &str) -> (r: String)
    ensures
        r@ == raw_attribute(name@),
{
    let cs = chars_of(name);
    if cs.len() == 0 {
        return raw_attribute_name(name, "");
    }
    raw_attribute_name(name, to_uppercase(cs[0]).as_str())
}

/// What is read of element `i`. The position and the size are given, where the
/// element has them.
pub open spec fn attr_reading(
    nodes: Seq<ElementData>,
    i: usize,
    g: Get,
    position: Option<String>,
    size: Option<String>,
) -> Result<Seq<char>, Seq<char>> {
    match g {
        Get::Text => Ok(text_through(nodes, i, COLLECT_DEPTH as nat, Seq::empty())),
        Get::Role => Ok(text_attr_or_empty(nodes, i, "AXRole"@)),
        Get::Title => Ok(text_attr_or_empty(nodes, i, "AXTitle"@)),
        Get::Description => Ok(text_attr_or_empty(nodes, i, "AXDescription"@)),
        Get::Value => Ok(text_attr_or_empty(nodes, i, "AXValue"@)),
        Get::DomId => Ok(text_attr_or_empty(nodes, i, "AXDOMIdentifier"@)),
        Get::Classes => Ok(join(list_attr(nodes, i, "AXDOMClassList"@), " "@)),
        Get::Actions => Ok(join(views(nodes[i as int].actions@), " "@)),
        Get::Position => match position {
            Some(p) => Ok(p@),
            None => Err("AXPosition"@),
        },
        Get::Size => match size {
            Some(s) => Ok(s@),
            None => Err("AXSize"@),
        },
        Get::ChildCount => Ok(decimal(child_ids(nodes, i).len())),
        Get::Raw(name) => match text_attr(nodes, i, raw_attribute(name)) {
            Some(v) => Ok(v),
            None => Err(raw_attribute(name)),
        },
    }
}

/// What is read of an element. Its position and its size are given as they are
/// written, where it has them.
pub fn get_attr_value(
    node: &AXNode<'_>,
    attr: &GetAttr,
    position: &Option<String>,
    size: &Option<String>,
) -> (r: Result<String, AxError>)
    ensures
        match attr_reading(node.nodes(), node.index(), attr@, *position, *size) {
            Ok(v) => r matches Ok(s) && s@ == v,
            Err(name) => r matches Err(AxError::AttributeNotFound(m)) && m@ == name,
        },
{
    match attr {
        GetAttr::Text => Ok(collect_text(node, COLLECT_DEPTH)),
        GetAttr::Role => Ok(attr_string_or_empty(node.0, "AXRole")),
        GetAttr::Title => Ok(attr_string_or_empty(node.0, "AXTitle")),
        GetAttr::Description => Ok(attr_string_or_empty(node.0, "AXDescription")),
        GetAttr::Value => Ok(attr_string_or_empty(node.0, "AXValue")),
        GetAttr::DomId => Ok(attr_string_or_empty(node.0, "AXDOMIdentifier")),
        GetAttr::Classes => Ok(join_texts(node.dom_classes().as_slice(), " ")),
        GetAttr::Actions => Ok(join_texts(node.actions().as_slice(), " ")),
        GetAttr::Position => match position {
            Some(p) => Ok(p.clone()),
            None => Err(AxError::AttributeNotFound("AXPosition".to_owned())),
        },
        GetAttr::Size => match size {
            Some(s) => Ok(s.clone()),
            None => Err(AxError::AttributeNotFound("AXSize".to_owned())),
        },
        GetAttr::ChildCount => {
            let mut out = String::new();
            push_decimal(&mut out, node.child_count() as u64);
            assert(out@ =~= decimal(child_ids(node.nodes(), node.index()).len()));
            Ok(out)
        },
        GetAttr::Raw(name) => {
            let ax_name = resolve_raw_attribute(name.as_str());
            match attr_string(node.0, ax_name.as_str()) {
                Some(v) => Ok(v),
                None => Err(AxError::AttributeNotFound(ax_name)),
            }
        },
    }
}

/// `value` as it is printed: with a line break at its end.
pub open spec fn printed(value: Seq<char>) -> Seq<char> {
    if value.len() > 0 && value.last() == '\n' {
        value
    } else {
        value.push('\n')
    }
}

/// A value as it is printed: with a line break at its end.
pub fn printed_value(value: &str) -> (r: String)
    ensures
        r@ == printed(value@),
{
    proof {
        reveal_strlit("\n");
    }
    let mut out = value.to_owned();
    if ends_with_text(value, "\n") {
        assert(value@.subrange(value@.len() - 1, value@.len() as int)[0] == value@.last());
    } else {
        proof {
            if value@.len() > 0 && value@.last() == '\n' {
                assert(value@.subrange(value@.len() - 1, value@.len() as int) =~= "\n"@);
            }
        }
        out.push('\n');
    }
    out
}

// ---------------------------------------------------------------------------
// Laws
// ---------------------------------------------------------------------------

/// The text of a static text, a text area or a text field is its value, and what
/// lies below it does not count.
pub proof fn lemma_text_of_text_roles(
    nodes: Seq<ElementData>,
    i: usize,
    depth: nat,
    text: Seq<char>,
)
    requires
        depth >= 1,
    ensures
        text_attr(nodes, i, "AXRole"@) == Some("AXStaticText"@) ==> text_through(
            nodes,
            i,
            depth,
            text,
        ) == text + text_attr_or_empty(nodes, i, "AXValue"@),
        text_attr(nodes, i, "AXRole"@) == Some("AXTextArea"@) ==> text_through(
            nodes,
            i,
            depth,
            text,
        ) == text + text_attr_or_empty(nodes, i, "AXValue"@),
        text_attr(nodes, i, "AXRole"@) == Some("AXTextField"@) ==> text_through(
            nodes,
            i,
            depth,
            text,
        ) == text + text_attr_or_empty(nodes, i, "AXValue"@),
{
}

/// The role is one of the eight of elements that stand on lines of their own.
pub open spec fn one_of_eight(role: Seq<char>) -> bool {
    role == "AXGroup"@ || role == "AXList"@ || role == "AXTable"@ || role == "AXRow"@ || role
        == "AXHeading"@ || role == "AXParagraph"@ || role == "AXBlockquote"@ || role
        == "AXArticle"@
}

/// None of the roles of elements on lines of their own is one of a text.
proof fn lemma_roles_differ(role: Seq<char>)
    requires
        one_of_eight(role),
    ensures
        role != "AXStaticText"@ && role != "AXTextArea"@ && role != "AXTextField"@,
{
    reveal_strlit("AXStaticText");
    reveal_strlit("AXTextArea");
    reveal_strlit("AXTextField");
    reveal_strlit("AXGroup");
    reveal_strlit("AXList");
    reveal_strlit("AXTable");
    reveal_strlit("AXRow");
    reveal_strlit("AXHeading");
    reveal_strlit("AXParagraph");
    reveal_strlit("AXBlockquote");
    reveal_strlit("AXArticle");
    assert("AXStaticText"@.len() == 12 && "AXTextArea"@.len() == 10 && "AXTextField"@.len() == 11);
    assert("AXGroup"@.len() == 7 && "AXList"@.len() == 6 && "AXTable"@.len() == 7);
    assert("AXRow"@.len() == 5 && "AXHeading"@.len() == 9 && "AXParagraph"@.len() == 11);
    assert("AXBlockquote"@.len() == 12 && "AXArticle"@.len() == 9);
    assert("AXTextField"@[2] == 'T' && "AXParagraph"@[2] == 'P');
    assert("AXStaticText"@[2] == 'S' && "AXBlockquote"@[2] == 'B');
}

/// Text that was collected stays, and more follows it.
pub proof fn lemma_text_grows(nodes: Seq<ElementData>, i: usize, depth: nat, text: Seq<char>)
    ensures
        text.is_prefix_of(text_through(nodes, i, depth, text)),
    decreases depth, child_ids(nodes, i).len() + 1,
{
    if depth > 0 {
        lemma_text_grows_all(nodes, child_ids(nodes, i), depth, text);
        lemma_text_grows_all(nodes, child_ids(nodes, i), depth, line_broken(text));
        let inside = text_through_all(nodes, child_ids(nodes, i), depth, line_broken(text));
        lemma_prefix_of_prefix(text, line_broken(text), inside);
        lemma_prefix_of_prefix(text, inside, line_broken(inside));
        assert(text.is_prefix_of(text + text_attr_or_empty(nodes, i, "AXValue"@)));
    }
}

proof fn lemma_prefix_of_prefix(a: Seq<char>, b: Seq<char>, c: Seq<char>)
    requires
        a.is_prefix_of(b),
        b.is_prefix_of(c),
    ensures
        a.is_prefix_of(c),
{
    assert(c.subrange(0, a.len() as int) =~= b.subrange(0, a.len() as int));
}

proof fn lemma_text_grows_all(
    nodes: Seq<ElementData>,
    ids: Seq<usize>,
    depth: nat,
    text: Seq<char>,
)
    ensures
        text.is_prefix_of(text_through_all(nodes, ids, depth, text)),
    decreases depth, ids.len(),
{
    if depth > 0 && ids.len() > 0 {
        lemma_text_grows_all(nodes, ids.drop_last(), depth, text);
        let front = text_through_all(nodes, ids.drop_last(), depth, text);
        lemma_text_grows(nodes, ids.last(), (depth - 1) as nat, front);
        lemma_prefix_of_prefix(text, front, text_through_all(nodes, ids, depth, text));
    }
}

/// An element of one of the eight roles stands on lines of its own: a line break
/// ends what was collected before it, and what was collected with it.
pub proof fn lemma_text_of_block_roles(
    nodes: Seq<ElementData>,
    i: usize,
    depth: nat,
    text: Seq<char>,
)
    requires
        depth >= 1,
        one_of_eight(text_attr_or_empty(nodes, i, "AXRole"@)),
    ensures
        ({
            let r = text_through(nodes, i, depth, text);
            &&& r.len() > 0 ==> r.last() == '\n'
            &&& text.len() > 0 && text.last() != '\n' ==> text.push('\n').is_prefix_of(r)
            &&& text.len() == 0 || text.last() == '\n' ==> text.is_prefix_of(r)
        }),
{
    lemma_roles_differ(text_attr_or_empty(nodes, i, "AXRole"@));
    lemma_text_grows_all(nodes, child_ids(nodes, i), depth, line_broken(text));
    let inside = text_through_all(nodes, child_ids(nodes, i), depth, line_broken(text));
    lemma_prefix_of_prefix(line_broken(text), inside, line_broken(inside));
}

/// The text of any other element is that of its children, one after the other, with
/// one level less; and on lines of its own where it is of one of the eight roles.
pub proof fn lemma_text_of_children(
    nodes: Seq<ElementData>,
    i: usize,
    depth: nat,
    text: Seq<char>,
)
    requires
        depth >= 1,
    ensures
        ({
            let role = text_attr_or_empty(nodes, i, "AXRole"@);
            let add = |t: Seq<char>, c: usize| text_through(nodes, c, (depth - 1) as nat, t);
            &&& role != "AXStaticText"@ && role != "AXTextArea"@ && role != "AXTextField"@
                && !one_of_eight(role) ==> text_through(nodes, i, depth, text) == child_ids(
                nodes,
                i,
            ).fold_left(text, add)
            &&& one_of_eight(role) ==> {
                let start = if text.len() > 0 && text.last() != '\n' {
                    text.push('\n')
                } else {
                    text
                };
                let inside = child_ids(nodes, i).fold_left(start, add);
                text_through(nodes, i, depth, text) == if inside.len() > 0 && inside.last()
                    != '\n' {
                    inside.push('\n')
                } else {
                    inside
                }
            }
        }),
{
    let role = text_attr_or_empty(nodes, i, "AXRole"@);
    if one_of_eight(role) {
        lemma_roles_differ(role);
    }
    lemma_text_folds(nodes, child_ids(nodes, i), depth, text);
    lemma_text_folds(nodes, child_ids(nodes, i), depth, line_broken(text));
}

proof fn lemma_text_folds(nodes: Seq<ElementData>, ids: Seq<usize>, depth: nat, text: Seq<char>)
    requires
        depth >= 1,
    ensures
        text_through_all(nodes, ids, depth, text) == ids.fold_left(
            text,
            |t: Seq<char>, c: usize| text_through(nodes, c, (depth - 1) as nat, t),
        ),
    decreases ids.len(),
{
    if ids.len() > 0 {
        lemma_text_folds(nodes, ids.drop_last(), depth, text);
    }
}

/// Nothing is collected from no levels.
pub proof fn lemma_text_of_no_levels(nodes: Seq<ElementData>, i: usize, text: Seq<char>)
    ensures
        text_through(nodes, i, 0, text) == text,
{
}

/// What each reading reads.
pub proof fn lemma_readings(
    nodes: Seq<ElementData>,
    i: usize,
    position: Option<String>,
    size: Option<String>,
)
    ensures
        attr_reading(nodes, i, Get::Text, position, size) == Ok::<Seq<char>, Seq<char>>(
            text_through(nodes, i, 50, Seq::empty()),
        ),
        attr_reading(nodes, i, Get::Role, position, size) == Ok::<Seq<char>, Seq<char>>(
            text_attr_or_empty(nodes, i, "AXRole"@),
        ),
        attr_reading(nodes, i, Get::Title, position, size) == Ok::<Seq<char>, Seq<char>>(
            text_attr_or_empty(nodes, i, "AXTitle"@),
        ),
        attr_reading(nodes, i, Get::Description, position, size) == Ok::<Seq<char>, Seq<char>>(
            text_attr_or_empty(nodes, i, "AXDescription"@),
        ),
        attr_reading(nodes, i, Get::Value, position, size) == Ok::<Seq<char>, Seq<char>>(
            text_attr_or_empty(nodes, i, "AXValue"@),
        ),
        attr_reading(nodes, i, Get::DomId, position, size) == Ok::<Seq<char>, Seq<char>>(
            text_attr_or_empty(nodes, i, "AXDOMIdentifier"@),
        ),
        attr_reading(nodes, i, Get::Classes, position, size) == Ok::<Seq<char>, Seq<char>>(
            join(list_attr(nodes, i, "AXDOMClassList"@), " "@),
        ),
        attr_reading(nodes, i, Get::Actions, position, size) == Ok::<Seq<char>, Seq<char>>(
            join(views(nodes[i as int].actions@), " "@),
        ),
        attr_reading(nodes, i, Get::ChildCount, position, size) == Ok::<Seq<char>, Seq<char>>(
            decimal(child_ids(nodes, i).len()),
        ),
        attr_reading(nodes, i, Get::Position, position, size) is Err <==> position is None,
        attr_reading(nodes, i, Get::Size, position, size) is Err <==> size is None,
        position matches Some(p) ==> attr_reading(nodes, i, Get::Position, position, size) == Ok::<
            Seq<char>,
            Seq<char>,
        >(p@),
        size matches Some(s) ==> attr_reading(nodes, i, Get::Size, position, size) == Ok::<
            Seq<char>,
            Seq<char>,
        >(s@),
{
}

/// Any other name stands for the attribute of that name, with `AX` before it where
/// it is missing and its first letter a capital.
pub proof fn lemma_raw_readings(
    nodes: Seq<ElementData>,
    i: usize,
    name: Seq<char>,
    position: Option<String>,
    size: Option<String>,
)
    requires
        name.len() > 0,
        name[0] <= '\u{7f}',
    ensures
        ({
            let first = if 'a' <= name[0] <= 'z' {
                (name[0] as nat - 32) as char
            } else {
                name[0]
            };
            let whole = if name.len() >= 2 && name[0] == 'A' && name[1] == 'X' {
                name
            } else {
                "AX"@ + seq![first] + name.skip(1)
            };
            attr_reading(nodes, i, Get::Raw(name), position, size) == match text_attr(
                nodes,
                i,
                whole,
            ) {
                Some(v) => Ok::<Seq<char>, Seq<char>>(v),
                None => Err::<Seq<char>, Seq<char>>(whole),
            }
        }),
{
    reveal_strlit("AX");
    if name.len() >= 2 && name[0] == 'A' && name[1] == 'X' {
        assert(name.subrange(0, 2) =~= "AX"@);
    } else if starts_with(name, "AX"@) {
        assert(name.subrange(0, 2)[0] == name[0] && name.subrange(0, 2)[1] == name[1]);
    }
}

/// A printed value ends with a line break, which is added where it is missing.
pub proof fn lemma_printed(value: Seq<char>)
    ensures
        printed(value).last() == '\n',
        value.is_prefix_of(printed(value)),
        printed(value).len() == if value.len() > 0 && value.last() == '\n' {
            value.len()
        } else {
            value.len() + 1
        },
{
}

/// What the readings stand for.
pub proof fn lemma_get_views(s: String)
    ensures
        GetAttr::Text@ == Get::Text && GetAttr::Role@ == Get::Role && GetAttr::Title@ == Get::Title,
        GetAttr::Description@ == Get::Description && GetAttr::Value@ == Get::Value,
        GetAttr::DomId@ == Get::DomId && GetAttr::Classes@ == Get::Classes,
        GetAttr::Actions@ == Get::Actions && GetAttr::Position@ == Get::Position,
        GetAttr::Size@ == Get::Size && GetAttr::ChildCount@ == Get::ChildCount,
        GetAttr::Raw(s)@ == Get::Raw(s@),
{
}

/// What the short names ask for.
pub proof fn lemma_short_names(name: Seq<char>)
    ensures
        get_named("text"@, name) == Get::Text,
        get_named("role"@, name) == Get::Role,
        get_named("title"@, name) == Get::Title,
        get_named("desc"@, name) == Get::Description,
        get_named("value"@, name) == Get::Value,
        get_named("domid"@, name) == Get::DomId,
        get_named("dom-id"@, name) == Get::DomId,
        get_named("class"@, name) == Get::Classes,
        get_named("pos"@, name) == Get::Position,
        get_named("size"@, name) == Get::Size,
{
    lemma_names_apart();
}

/// What the long names ask for.
pub proof fn lemma_long_names(name: Seq<char>)
    ensures
        get_named("axtitle"@, name) == Get::Title,
        get_named("description"@, name) == Get::Description,
        get_named("axdescription"@, name) == Get::Description,
        get_named("axvalue"@, name) == Get::Value,
        get_named("axdomidentifier"@, name) == Get::DomId,
        get_named("classes"@, name) == Get::Classes,
        get_named("axdomclasslist"@, name) == Get::Classes,
        get_named("actions"@, name) == Get::Actions,
        get_named("position"@, name) == Get::Position,
        get_named("children"@, name) == Get::ChildCount,
        get_named("child-count"@, name) == Get::ChildCount,
        get_named("childcount"@, name) == Get::ChildCount,
{
    lemma_names_apart();
}

/// Names of the same length differ in one of their first three characters.
proof fn lemma_names_apart()
    ensures
        "text"@.len() == 4 && "role"@.len() == 4 && "desc"@.len() == 4 && "size"@.len() == 4,
        "title"@.len() == 5 && "value"@.len() == 5 && "domid"@.len() == 5 && "class"@.len() == 5,
        "axtitle"@.len() == 7 && "axvalue"@.len() == 7 && "classes"@.len() == 7,
        "actions"@.len() == 7 && "description"@.len() == 11 && "child-count"@.len() == 11,
        "axdescription"@.len() == 13 && "dom-id"@.len() == 6 && "axdomidentifier"@.len() == 15,
        "axdomclasslist"@.len() == 14 && "position"@.len() == 8 && "children"@.len() == 8,
        "pos"@.len() == 3 && "childcount"@.len() == 10,
        "text"@[0] == 't' && "role"@[0] == 'r' && "desc"@[0] == 'd' && "size"@[0] == 's',
        "title"@[0] == 't' && "value"@[0] == 'v' && "domid"@[0] == 'd' && "class"@[0] == 'c',
        "axtitle"@[0] == 'a' && "axvalue"@[0] == 'a' && "classes"@[0] == 'c',
        "actions"@[0] == 'a' && "axtitle"@[1] == 'x' && "axvalue"@[1] == 'x',
        "actions"@[1] == 'c' && "axtitle"@[2] == 't' && "axvalue"@[2] == 'v',
        "description"@[0] == 'd' && "child-count"@[0] == 'c' && "position"@[0] == 'p',
        "children"@[0] == 'c',
{
    reveal_strlit("text");
    reveal_strlit("role");
    reveal_strlit("title");
    reveal_strlit("axtitle");
    reveal_strlit("description");
    reveal_strlit("desc");
    reveal_strlit("axdescription");
    reveal_strlit("value");
    reveal_strlit("axvalue");
    reveal_strlit("domid");
    reveal_strlit("dom-id");
    reveal_strlit("axdomidentifier");
    reveal_strlit("classes");
    reveal_strlit("class");
    reveal_strlit("axdomclasslist");
    reveal_strlit("actions");
    reveal_strlit("position");
    reveal_strlit("pos");
    reveal_strlit("size");
    reveal_strlit("children");
    reveal_strlit("child-count");
    reveal_strlit("childcount");
}

/// A name of another length than the known ones asks for the attribute of that name.
pub proof fn lemma_raw_names(folded: Seq<char>, name: Seq<char>)
    requires
        folded.len() < 3 || folded.len() == 9 || folded.len() == 12 || folded.len() > 15,
    ensures
        get_named(folded, name) == Get::Raw(name),
{
    lemma_names_apart();
}

/// The attribute that a name stands for, where `first` is its first character as a
/// capital.
pub proof fn lemma_raw_attribute_with(name: Seq<char>, first: Seq<char>)
    ensures
        raw_attribute_with("AX"@ + name, first) == "AX"@ + name,
        raw_attribute_with(Seq::empty(), first) == "AX"@,
        name.len() > 0 && (name[0] != 'A' || name.len() == 1 || name[1] != 'X')
            ==> raw_attribute_with(name, first) == "AX"@ + first + name.skip(1),
{
    reveal_strlit("AX");
    let whole = "AX"@ + name;
    assert(whole.subrange(0, 2) =~= "AX"@);
    if starts_with(name, "AX"@) {
        assert(name.subrange(0, 2)[0] == name[0] && name.subrange(0, 2)[1] == name[1]);
    }
}

} // verus!
