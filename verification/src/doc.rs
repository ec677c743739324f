//! The document: a tree of values, as the tool that reads the document
//! hands it over, and the walk that finds the fragments in it.

use vstd::prelude::*;
use vstd::string::StringExecFns;
use crate::fragment::{math_fragment_type, math_kind, raw_block_fragment_type, raw_block_kind, FragmentType};
use crate::text::str_equal;

verus! {

/// A value of the document tree. A number is kept as it is written.
#[derive(Debug, PartialEq, Eq)]
pub enum Json {
    Null,
    Bool(bool),
    Number(String),
    Text(String),
    List(Vec<Json>),
    Object(Vec<Member>),
}

/// A member of an object: its key and its value.
#[derive(Debug, PartialEq, Eq)]
pub struct Member {
    pub key: String,
    pub value: Json,
}

/// The place of the first member with the key `key` at or after `from`,
/// or -1 if there is none.
pub open spec fn key_place_from(members: Seq<Member>, key: Seq<char>, from: int) -> int
    decreases members.len() - from,
{
    if from < 0 || from >= members.len() {
        -1
    } else if members[from].key@ == key {
        from
    } else {
        key_place_from(members, key, from + 1)
    }
}

/// The place of the first member with the key `key`, or -1 if there is
/// none.
pub open spec fn key_place(members: Seq<Member>, key: Seq<char>) -> int {
    key_place_from(members, key, 0)
}

/// The place that [`key_place`] names is that of a member, and no member
/// before it has the key.
pub proof fn lemma_key_place(members: Seq<Member>, key: Seq<char>, from: int)
    requires
        0 <= from,
    ensures
        key_place_from(members, key, from) == -1 || (from <= key_place_from(members, key, from)
            < members.len() && members[key_place_from(members, key, from)].key@ == key),
        forall|k: int|
            from <= k < members.len() && (key_place_from(members, key, from) == -1 || k
                < key_place_from(members, key, from)) ==> (#[trigger] members[k]).key@ != key,
    decreases members.len() - from,
{
    if from < members.len() && members[from].key@ != key {
        lemma_key_place(members, key, from + 1);
    }
}

/// The text of a value, if it is a text.
pub open spec fn text_of(value: Json) -> Option<Seq<char>> {
    match value {
        Json::Text(s) => Some(s@),
        _ => None,
    }
}

/// The text of the member `key` of a value, if the value is an object with
/// such a member and the member is a text.
pub open spec fn text_member(value: Json, key: Seq<char>) -> Option<Seq<char>> {
    match value {
        Json::Object(members) => {
            let at = key_place(members@, key);
            if 0 <= at < members.len() {
                text_of(members@[at].value)
            } else {
                None
            }
        },
        _ => None,
    }
}

/// The element `i` of a value, if the value is a list that long.
pub open spec fn element_of(value: Json, i: int) -> Option<Json> {
    match value {
        Json::List(items) => if 0 <= i < items.len() {
            Some(items@[i])
        } else {
            None
        },
        _ => None,
    }
}

impl Json {
    /// The place of the member `key`, if the value is an object that has
    /// one.
    pub fn member_place(&self, key: &str) -> (place: Option<usize>)
        ensures
            match *self {
                Json::Object(members) => match place {
                    Some(at) => at == key_place(members@, key@),
                    None => key_place(members@, key@) == -1,
                },
                _ => place is None,
            },
    {
        match self {
            Json::Object(members) => {
                let mut i: usize = 0;
                while i < members.len()
                    invariant
                        i <= members.len(),
                        *self == Json::Object(*members),
                        key_place(members@, key@) == key_place_from(members@, key@, i as int),
                    decreases members.len() - i,
                {
                    if str_equal(members[i].key.as_str(), key) {
                        return Some(i);
                    }
                    i += 1;
                }
                None
            },
            _ => None,
        }
    }

    /// The member `key` of an object.
    pub fn member(&self, key: &str) -> (value: Option<&Json>)
        ensures
            match *self {
                Json::Object(members) => match value {
                    Some(v) => 0 <= key_place(members@, key@) < members.len() && *v
                        == members@[key_place(members@, key@)].value,
                    None => key_place(members@, key@) == -1,
                },
                _ => value is None,
            },
    {
        match self {
            Json::Object(members) => match self.member_place(key) {
                Some(at) => {
                    proof {
                        lemma_key_place(members@, key@, 0);
                    }
                    Some(&members[at].value)
                },
                None => None,
            },
            _ => None,
        }
    }

    /// The element `i` of a list.
    pub fn element(&self, i: usize) -> (value: Option<&Json>)
        ensures
            match value {
                Some(v) => element_of(*self, i as int) == Some(*v),
                None => element_of(*self, i as int) is None,
            },
    {
        match self {
            Json::List(items) => if i < items.len() {
                Some(&items[i])
            } else {
                None
            },
            _ => None,
        }
    }

    /// The text of a value that is a text.
    pub fn as_text(&self) -> (text: Option<&str>)
        ensures
            match text {
                Some(t) => text_of(*self) == Some(t@),
                None => text_of(*self) is None,
            },
    {
        match self {
            Json::Text(s) => Some(s.as_str()),
            _ => None,
        }
    }

    /// The text of the member `key` of an object.
    pub fn text_at(&self, key: &str) -> (text: Option<&str>)
        ensures
            match text {
                Some(t) => text_member(*self, key@) == Some(t@),
                None => text_member(*self, key@) is None,
            },
    {
        match self.member(key) {
            Some(v) => v.as_text(),
            None => None,
        }
    }
}

/// The weight of a value: one for itself and the weight of everything in
/// it. Whatever is in a value weighs less than the value, which is what the
/// walk goes down by.
#[verifier::opaque]
pub open spec fn weight(v: Json) -> nat
    decreases v,
{
    match v {
        Json::List(items) => 1 + list_weight(items@),
        Json::Object(members) => 1 + members_weight(members@),
        _ => 1,
    }
}

/// The weight of the values of a list.
#[verifier::opaque]
pub open spec fn list_weight(items: Seq<Json>) -> nat
    decreases items,
{
    if items.len() == 0 {
        0
    } else {
        weight(items.last()) + list_weight(items.drop_last())
    }
}

/// The weight of the values of the members of an object.
#[verifier::opaque]
pub open spec fn members_weight(members: Seq<Member>) -> nat
    decreases members,
{
    if members.len() == 0 {
        0
    } else {
        weight(members.last().value) + members_weight(members.drop_last())
    }
}

/// A value of a list weighs no more than the list.
pub proof fn lemma_list_weight(items: Seq<Json>, i: int)
    requires
        0 <= i < items.len(),
    ensures
        weight(items[i]) <= list_weight(items),
    decreases items.len(),
{
    reveal_with_fuel(weight, 2);
    reveal_with_fuel(list_weight, 2);
    reveal_with_fuel(members_weight, 2);
    if i < items.len() - 1 {
        lemma_list_weight(items.drop_last(), i);
    }
}

/// The value of a member weighs no more than the members.
pub proof fn lemma_members_weight(members: Seq<Member>, i: int)
    requires
        0 <= i < members.len(),
    ensures
        weight(members[i].value) <= members_weight(members),
    decreases members.len(),
{
    reveal_with_fuel(weight, 2);
    reveal_with_fuel(list_weight, 2);
    reveal_with_fuel(members_weight, 2);
    if i < members.len() - 1 {
        lemma_members_weight(members.drop_last(), i);
    }
}

/// What an object holds weighs less than the object: the value of a
/// member, the values of a member that is a list, and that list as a whole.
pub proof fn lemma_object_weight(value: Json)
    ensures
        value matches Json::Object(members) ==> forall|i: int|
            0 <= i < members@.len() ==> {
                &&& weight(#[trigger] members@[i].value) < weight(value)
                &&& members@[i].value matches Json::List(items) ==> list_weight(items@) < weight(
                    value,
                ) && list_weight_of(items@) < weight(value) && forall|j: int|
                    0 <= j < items@.len() ==> weight(#[trigger] items@[j]) < weight(value)
                &&& members@[i].value matches Json::Object(inner) ==> members_weight_of(inner@)
                    < weight(value)
            },
{
    reveal_with_fuel(weight, 2);
    reveal_with_fuel(list_weight, 2);
    reveal_with_fuel(members_weight, 2);
    if let Json::Object(members) = value {
        assert forall|i: int| 0 <= i < members@.len() implies {
            &&& weight(#[trigger] members@[i].value) < weight(value)
            &&& members@[i].value matches Json::List(items) ==> list_weight(items@) < weight(
                value,
            ) && list_weight_of(items@) < weight(value) && forall|j: int|
                0 <= j < items@.len() ==> weight(#[trigger] items@[j]) < weight(value)
            &&& members@[i].value matches Json::Object(inner) ==> members_weight_of(inner@)
                < weight(value)
        } by {
            lemma_members_weight(members@, i);
            if let Json::List(items) = members@[i].value {
                assert forall|j: int| 0 <= j < items@.len() implies weight(
                    #[trigger] items@[j],
                ) < weight(value) by {
                    lemma_list_weight(items@, j);
                }
            }
        }
    }
}

/// A value of a list that is itself a value of a list weighs less than
/// the outer list.
proof fn lemma_nested_weight(items: Seq<Json>, i: int, j: int)
    requires
        0 <= i < items.len(),
        items[i] is List,
        0 <= j < items[i]->List_0@.len(),
    ensures
        weight(items[i]->List_0@[j]) < list_weight(items),
        list_weight(items[i]->List_0@) < list_weight(items),
{
    reveal_with_fuel(weight, 2);
    reveal_with_fuel(list_weight, 2);
    reveal_with_fuel(members_weight, 2);
    lemma_list_weight(items, i);
    lemma_list_weight(items[i]->List_0@, j);
}

/// The weight of a list as a whole: one more than the weight of its
/// values.
pub open spec fn list_weight_of(items: Seq<Json>) -> nat {
    list_weight(items) + 1
}

/// The weight of the members of an object as a whole: one more than the
/// weight of their values.
pub open spec fn members_weight_of(members: Seq<Member>) -> nat {
    members_weight(members) + 1
}

/// A value of a list weighs less than the list.
pub proof fn lemma_item_weight(items: Seq<Json>, k: int)
    requires
        0 <= k < items.len(),
    ensures
        weight(items[k]) < list_weight_of(items),
{
    lemma_list_weight(items, k);
}

/// The value of a member weighs less than the members.
pub proof fn lemma_member_weight(members: Seq<Member>, k: int)
    requires
        0 <= k < members.len(),
    ensures
        weight(members[k].value) < members_weight_of(members),
{
    lemma_members_weight(members, k);
}

/// A value of a list weighs less than the list.
pub proof fn lemma_in_list(value: Json, k: int)
    requires
        value is List,
        0 <= k < value->List_0@.len(),
    ensures
        weight(value->List_0@[k]) < weight(value),
{
    reveal_with_fuel(weight, 2);
    reveal_with_fuel(list_weight, 2);
    reveal_with_fuel(members_weight, 2);
    lemma_list_weight(value->List_0@, k);
}

/// A list as a value weighs what the list weighs as a whole.
proof fn lemma_whole_list(value: Json)
    requires
        value is List,
    ensures
        weight(value) == list_weight_of(value->List_0@),
{
    reveal_with_fuel(weight, 2);
    reveal_with_fuel(list_weight, 2);
    reveal_with_fuel(members_weight, 2);
}

/// A list that is a value of a list weighs, as a whole, less than the
/// outer list as a value and no more than its values.
proof fn lemma_list_in_list(value: Json, i: int)
    requires
        value is List,
        0 <= i < value->List_0@.len(),
        value->List_0@[i] is List,
    ensures
        list_weight_of(value->List_0@[i]->List_0@) < weight(value),
        list_weight_of(value->List_0@[i]->List_0@) <= list_weight(value->List_0@),
{
    reveal_with_fuel(weight, 2);
    reveal_with_fuel(list_weight, 2);
    reveal_with_fuel(members_weight, 2);
    lemma_list_weight(value->List_0@, i);
}

/// A node of the document that holds a fragment: the kind of the fragment,
/// its source text, whether the node is inline, and the way to the node
/// through the tree, as the place of a child at every step.
#[derive(Debug, PartialEq, Eq)]
pub struct Found {
    pub ty: FragmentType,
    pub src: String,
    pub inline: bool,
    pub path: Vec<usize>,
}

/// What a found node says.
pub struct FoundText {
    pub ty: FragmentType,
    pub src: Seq<char>,
    pub inline: bool,
    pub path: Seq<usize>,
}

impl View for Found {
    type V = FoundText;

    open spec fn view(&self) -> FoundText {
        FoundText { ty: self.ty, src: self.src@, inline: self.inline, path: self.path@ }
    }
}

/// What a list of found nodes says.
pub open spec fn found_texts(found: Seq<Found>) -> Seq<FoundText> {
    Seq::new(found.len(), |i: int| found[i]@)
}

/// The document does not have the shape that is expected of it. The
/// context says what was being read.
#[derive(Debug, PartialEq, Eq)]
pub struct UpstreamShapeError {
    pub context: String,
}

/// What a walk comes to: the nodes found, or the context of the first
/// fault.
pub type Walked = Result<Seq<FoundText>, Seq<char>>;

/// The context of a fault in a list under a node of the type `parent`.
pub open spec fn reading(parent: Seq<char>, what: Seq<char>) -> Seq<char> {
    "reading "@ + parent + what
}

/// One walk after another.
pub open spec fn and_then(first: Walked, second: Walked) -> Walked {
    match first {
        Err(e) => Err(e),
        Ok(a) => match second {
            Err(e) => Err(e),
            Ok(b) => Ok(a + b),
        },
    }
}

/// A walk that has found `done` and goes on with `here` and then `next`
/// is a walk that has found `done` and what `here` finds, and goes on with
/// `next`.
pub proof fn lemma_walked_on(done: Seq<FoundText>, here: Walked, next: Walked)
    requires
        here is Ok,
    ensures
        and_then(Ok(done), and_then(here, next)) == and_then(Ok(done + here->Ok_0), next),
{
    if let Ok(b) = next {
        assert(done + (here->Ok_0 + b) =~= (done + here->Ok_0) + b);
    }
}

/// What a math node with the content `c` comes to: a fragment of the kind
/// that its type and its source say.
pub open spec fn math_found(c: Json, path: Seq<usize>) -> Walked {
    let math = match element_of(c, 0) {
        Some(first) => text_member(first, "t"@),
        None => None,
    };
    let source = match element_of(c, 1) {
        Some(second) => text_of(second),
        None => None,
    };
    match math {
        None => Err("reading type of Math"@),
        Some(m) => match source {
            None => Err("reading source of Math"@),
            Some(text) => match math_kind(m, text) {
                None => Err("unknown math type "@ + m),
                Some(kind) => Ok(seq![FoundText { ty: kind, src: text, inline: true, path }]),
            },
        },
    }
}

/// An inline node of one of the types whose content is a list of inline
/// nodes.
pub open spec fn is_inline_wrapper(ty: Seq<char>) -> bool {
    ty == "Emph"@ || ty == "Underline"@ || ty == "Strong"@ || ty == "Strikeout"@
}

/// An inline node of one of the types whose content holds a list of
/// inline nodes in its second place.
pub open spec fn is_inline_holder(ty: Seq<char>) -> bool {
    ty == "Link"@ || ty == "Image"@
}

/// What the walk finds in an inline node: a math node is a fragment;
/// emphasis, links and the like are walked into; anything else holds
/// nothing.
pub open spec fn inline_found(value: Json, path: Seq<usize>) -> Walked
    decreases value, 0int,
{
    match value {
        Json::Object(members) => {
            let t = key_place(members@, "t"@);
            let c = key_place(members@, "c"@);
            if 0 <= t < members.len() {
                match members@[t].value {
                    Json::Text(ty) => {
                        if ty@ == "Math"@ {
                            math_found(
                                if 0 <= c < members.len() {
                                    members@[c].value
                                } else {
                                    Json::Null
                                },
                                path,
                            )
                        } else if is_inline_wrapper(ty@) {
                            if 0 <= c < members.len() {
                                inlines_found(members@[c].value, path.push(c as usize), ty@)
                            } else {
                                Err(reading(ty@, ".[Inline]"@))
                            }
                        } else if is_inline_holder(ty@) {
                            if 0 <= c < members.len() {
                                match members@[c].value {
                                    Json::List(items) => if items.len() > 1 {
                                        inlines_found(
                                            items@[1],
                                            path.push(c as usize).push(1),
                                            ty@,
                                        )
                                    } else {
                                        Err(reading(ty@, ".[Inline]"@))
                                    },
                                    _ => Err(reading(ty@, ".[Inline]"@)),
                                }
                            } else {
                                Err(reading(ty@, ".[Inline]"@))
                            }
                        } else {
                            Ok(Seq::empty())
                        }
                    },
                    _ => Err("reading type of Inline"@),
                }
            } else {
                Err("reading type of Inline"@)
            }
        },
        _ => Err("reading type of Inline"@),
    }
}

/// What the walk finds in a list of inline nodes, which `value` must be.
pub open spec fn inlines_found(value: Json, path: Seq<usize>, parent: Seq<char>) -> Walked
    decreases value, 1int,
{
    match value {
        Json::List(items) => inline_items_found(items@, 0, path),
        _ => Err(reading(parent, ".[Inline]"@)),
    }
}

/// What the walk finds in the inline nodes of `items` from `from` on.
pub open spec fn inline_items_found(items: Seq<Json>, from: int, path: Seq<usize>) -> Walked
    decreases items, items.len() - from,
{
    if 0 <= from < items.len() {
        and_then(
            inline_found(items[from], path.push(from as usize)),
            inline_items_found(items, from + 1, path),
        )
    } else {
        Ok(Seq::empty())
    }
}

/// What the walk finds in a list of lists of inline nodes.
pub open spec fn inline_lists_found(value: Json, path: Seq<usize>, parent: Seq<char>) -> Walked {
    match value {
        Json::List(lists) => inline_list_items_found(lists@, 0, path, parent),
        _ => Err(reading(parent, ".[[Inline]]"@)),
    }
}

/// What the walk finds in the lists of inline nodes of `lists` from `from`
/// on.
pub open spec fn inline_list_items_found(
    lists: Seq<Json>,
    from: int,
    path: Seq<usize>,
    parent: Seq<char>,
) -> Walked
    decreases lists.len() - from,
{
    if 0 <= from < lists.len() {
        and_then(
            inlines_found(lists[from], path.push(from as usize), parent),
            inline_list_items_found(lists, from + 1, path, parent),
        )
    } else {
        Ok(Seq::empty())
    }
}

/// The way to the child at `i` of the node at `path`.
pub fn child_path(path: &Vec<usize>, i: usize) -> (child: Vec<usize>)
    ensures
        child@ == path@.push(i),
{
    let mut child: Vec<usize> = Vec::new();
    let mut k: usize = 0;
    while k < path.len()
        invariant
            k <= path.len(),
            child@ == path@.take(k as int),
        decreases path.len() - k,
    {
        child.push(path[k]);
        assert(child@ =~= path@.take(k + 1));
        k += 1;
    }
    assert(path@.take(k as int) =~= path@);
    child.push(i);
    child
}

/// The fault of a list under a node of the type `parent`.
fn shape_error(parent: &str, what: &str) -> (e: UpstreamShapeError)
    ensures
        e.context@ == reading(parent@, what@),
{
    let mut context = String::from_str("reading ");
    context.append(parent);
    context.append(what);
    assert(context@ =~= reading(parent@, what@));
    UpstreamShapeError { context }
}

/// The fault with the context `context`.
fn fault(context: &str) -> (e: UpstreamShapeError)
    ensures
        e.context@ == context@,
{
    UpstreamShapeError { context: String::from_str(context) }
}

/// What a list starts with, it still starts with when it has grown.
proof fn lemma_prefix_kept(start: Seq<FoundText>, done: Seq<FoundText>, after: Seq<FoundText>)
    requires
        (start + done).is_prefix_of(after),
    ensures
        start.is_prefix_of(after),
{
    assert(start =~= after.subrange(0, start.len() as int)) by {
        assert forall|i: int| 0 <= i < start.len() implies start[i] == after[i] by {
            assert((start + done)[i] == after.subrange(0, (start + done).len() as int)[i]);
        }
    }
}

/// Whether a walk that has appended to `before` and come to `result` has
/// done what `walked` says.
pub open spec fn walk_done(
    walked: Walked,
    before: Seq<Found>,
    after: Seq<Found>,
    result: Result<(), UpstreamShapeError>,
) -> bool {
    match result {
        Ok(()) => walked is Ok && found_texts(after) == found_texts(before) + walked->Ok_0,
        Err(e) => walked == Err::<Seq<FoundText>, Seq<char>>(e.context@) && found_texts(
            before,
        ).is_prefix_of(found_texts(after)),
    }
}

/// Walks a math node with the content `c`.
fn walk_math(c: &Json, path: &Vec<usize>, out: &mut Vec<Found>) -> (result: Result<
    (),
    UpstreamShapeError,
>)
    ensures
        walk_done(math_found(*c, path@), old(out)@, final(out)@, result),
        result is Err ==> final(out)@ == old(out)@,
{
    let math = match c.element(0) {
        Some(first) => first.text_at("t"),
        None => None,
    };
    let math = match math {
        Some(m) => m,
        None => {
            return Err(fault("reading type of Math"));
        },
    };
    let source = match c.element(1) {
        Some(second) => second.as_text(),
        None => None,
    };
    let text = match source {
        Some(t) => t,
        None => {
            return Err(fault("reading source of Math"));
        },
    };
    match math_fragment_type(math, text) {
        Some(kind) => {
            let ghost before = out@;
            out.push(
                Found { ty: kind, src: String::from_str(text), inline: true, path: copy_path(path) },
            );
            assert(found_texts(out@) =~= found_texts(before) + seq![
                FoundText { ty: kind, src: text@, inline: true, path: path@ },
            ]);
            Ok(())
        },
        None => {
            let mut context = String::from_str("unknown math type ");
            context.append(math);
            Err(UpstreamShapeError { context })
        },
    }
}

/// A copy of a way through the tree.
fn copy_path(path: &Vec<usize>) -> (copy: Vec<usize>)
    ensures
        copy@ == path@,
{
    let mut copy: Vec<usize> = Vec::new();
    let mut k: usize = 0;
    while k < path.len()
        invariant
            k <= path.len(),
            copy@ == path@.take(k as int),
        decreases path.len() - k,
    {
        copy.push(path[k]);
        assert(copy@ =~= path@.take(k + 1));
        k += 1;
    }
    assert(path@.take(k as int) =~= path@);
    copy
}

/// Whether an inline node of the type `ty` holds a list of inline nodes as
/// its content.
fn inline_wrapper(ty: &str) -> (yes: bool)
    ensures
        yes == is_inline_wrapper(ty@),
{
    str_equal(ty, "Emph") || str_equal(ty, "Underline") || str_equal(ty, "Strong") || str_equal(
        ty,
        "Strikeout",
    )
}

/// The node is a math node: an object whose type is `Math`.
pub open spec fn is_math_node(value: Json) -> bool {
    match value {
        Json::Object(members) => {
            let t = key_place(members@, "t"@);
            0 <= t < members.len() && (members@[t].value matches Json::Text(ty) && ty@ == "Math"@)
        },
        _ => false,
    }
}

/// Walks an inline node. Where the walk fails, what was found in the nodes
/// before the one that is at fault stays in `out`; a math node that is at
/// fault leaves `out` as it was.
pub fn walk_inline(value: &Json, path: &Vec<usize>, out: &mut Vec<Found>) -> (result: Result<
    (),
    UpstreamShapeError,
>)
    ensures
        walk_done(inline_found(*value, path@), old(out)@, final(out)@, result),
        is_math_node(*value) && result is Err ==> final(out)@ == old(out)@,
    decreases weight(*value), 0int,
{
    let ghost before = out@;
    proof {
        lemma_object_weight(*value);
    }
    let members = match value {
        Json::Object(members) => members,
        _ => {
            return Err(fault("reading type of Inline"));
        },
    };
    let t = match value.member_place("t") {
        Some(t) => t,
        None => {
            return Err(fault("reading type of Inline"));
        },
    };
    proof {
        lemma_key_place(members@, "t"@, 0);
        lemma_key_place(members@, "c"@, 0);
    }
    let ty = match &members[t].value {
        Json::Text(ty) => ty.as_str(),
        _ => {
            return Err(fault("reading type of Inline"));
        },
    };
    let c = value.member_place("c");
    if str_equal(ty, "Math") {
        let null = Json::Null;
        let content = match c {
            Some(c) => &members[c].value,
            None => &null,
        };
        walk_math(content, path, out)
    } else if inline_wrapper(ty) {
        match c {
            Some(c) => walk_inlines(&members[c].value, &child_path(path, c), ty, out),
            None => Err(shape_error(ty, ".[Inline]")),
        }
    } else if str_equal(ty, "Link") || str_equal(ty, "Image") {
        match c {
            Some(c) => match &members[c].value {
                Json::List(items) => if items.len() > 1 {
                    walk_inlines(&items[1], &child_path(&child_path(path, c), 1), ty, out)
                } else {
                    Err(shape_error(ty, ".[Inline]"))
                },
                _ => Err(shape_error(ty, ".[Inline]")),
            },
            None => Err(shape_error(ty, ".[Inline]")),
        }
    } else {
        assert(found_texts(out@) =~= found_texts(before) + Seq::<FoundText>::empty());
        Ok(())
    }
}

/// Walks a list of inline nodes under a node of the type `parent`.
pub fn walk_inlines(value: &Json, path: &Vec<usize>, parent: &str, out: &mut Vec<Found>) -> (result:
    Result<(), UpstreamShapeError>)
    ensures
        walk_done(inlines_found(*value, path@, parent@), old(out)@, final(out)@, result),
    decreases weight(*value), 1int,
{
    let ghost before = out@;
    let items = match value {
        Json::List(items) => items,
        _ => {
            return Err(shape_error(parent, ".[Inline]"));
        },
    };
    let mut k: usize = 0;
    let ghost mut done: Seq<FoundText> = Seq::empty();
    assert(found_texts(out@) =~= found_texts(before) + done);
    while k < items.len()
        invariant
            k <= items.len(),
            *value == Json::List(*items),
            before == old(out)@,
            found_texts(out@) == found_texts(before) + done,
            inline_items_found(items@, 0, path@) == and_then(
                Ok(done),
                inline_items_found(items@, k as int, path@),
            ),
        decreases items.len() - k,
    {
        let ghost here = inline_found(items@[k as int], path@.push(k));
        proof {
            lemma_in_list(*value, k as int);
        }
        match walk_inline(&items[k], &child_path(path, k), out) {
            Ok(()) => {
                proof {
                    lemma_walked_on(done, here, inline_items_found(items@, k + 1, path@));
                    assert(found_texts(out@) =~= found_texts(before) + (done + here->Ok_0));
                    done = done + here->Ok_0;
                }
            },
            Err(e) => {
                proof {
                    lemma_prefix_kept(found_texts(before), done, found_texts(out@));
                }
                return Err(e);
            },
        }
        k += 1;
    }
    assert(done + Seq::<FoundText>::empty() =~= done);
    Ok(())
}

/// The type that the blocks in a cell of a table are read under.
pub open spec fn cell_parent() -> Seq<char> {
    "[Cell] of Row of TableHead of Table"@
}

/// What a raw block with the content `c` comes to: a fragment if its
/// format is that of the typesetter, and nothing otherwise.
pub open spec fn raw_block_found(c: Json, path: Seq<usize>) -> Walked {
    let format = match element_of(c, 0) {
        Some(first) => text_of(first),
        None => None,
    };
    let source = match element_of(c, 1) {
        Some(second) => text_of(second),
        None => None,
    };
    match format {
        None => Err("reading format of RawBlock"@),
        Some(f) => if raw_block_kind(f, Seq::empty()) is None {
            Ok(Seq::empty())
        } else {
            match source {
                None => Err("reading source of RawBlock"@),
                Some(text) => match raw_block_kind(f, text) {
                    Some(kind) => Ok(seq![FoundText { ty: kind, src: text, inline: false, path }]),
                    None => Ok(Seq::empty()),
                },
            }
        },
    }
}

/// What the walk finds in a block: paragraphs, headers, quotes, lists,
/// divisions and tables are walked into; a raw block may be a fragment;
/// anything else holds nothing.
pub open spec fn block_found(value: Json, path: Seq<usize>) -> Walked
    decreases value, 0int,
{
    match value {
        Json::Object(members) => {
            let t = key_place(members@, "t"@);
            let c = key_place(members@, "c"@);
            let has_c = 0 <= c < members.len();
            let at_c = path.push(c as usize);
            if 0 <= t < members.len() {
                match members@[t].value {
                    Json::Text(ty) => {
                        if ty@ == "Para"@ || ty@ == "Plain"@ {
                            if has_c {
                                inlines_found(members@[c].value, at_c, ty@)
                            } else {
                                Err(reading(ty@, ".[Inline]"@))
                            }
                        } else if ty@ == "LineBlock"@ {
                            if has_c {
                                inline_lists_found(members@[c].value, at_c, ty@)
                            } else {
                                Err(reading(ty@, ".[[Inline]]"@))
                            }
                        } else if ty@ == "Header"@ {
                            if has_c {
                                match members@[c].value {
                                    Json::List(items) => if items.len() > 2 {
                                        inlines_found(items@[2], at_c.push(2), ty@)
                                    } else {
                                        Err(reading(ty@, ".[Inline]"@))
                                    },
                                    _ => Err(reading(ty@, ".[Inline]"@)),
                                }
                            } else {
                                Err(reading(ty@, ".[Inline]"@))
                            }
                        } else if ty@ == "BlockQuote"@ {
                            if has_c {
                                blocks_found(members@[c].value, at_c, ty@)
                            } else {
                                Err(reading(ty@, ".[Block]"@))
                            }
                        } else if ty@ == "BulletList"@ {
                            if has_c {
                                block_lists_found(members@[c].value, at_c, ty@)
                            } else {
                                Err(reading(ty@, ".[[Block]]"@))
                            }
                        } else if ty@ == "OrderedList"@ || ty@ == "Div"@ {
                            if has_c {
                                match members@[c].value {
                                    Json::List(items) => if items.len() > 1 {
                                        block_lists_found(items@[1], at_c.push(1), ty@)
                                    } else {
                                        Err(reading(ty@, ".[[Block]]"@))
                                    },
                                    _ => Err(reading(ty@, ".[[Block]]"@)),
                                }
                            } else {
                                Err(reading(ty@, ".[[Block]]"@))
                            }
                        } else if ty@ == "RawBlock"@ {
                            raw_block_found(
                                if has_c {
                                    members@[c].value
                                } else {
                                    Json::Null
                                },
                                path,
                            )
                        } else if ty@ == "Table"@ {
                            if has_c {
                                match members@[c].value {
                                    Json::List(items) => table_found(items@, at_c),
                                    _ => Err("reading contents of Table"@),
                                }
                            } else {
                                Err("reading contents of Table"@)
                            }
                        } else {
                            Ok(Seq::empty())
                        }
                    },
                    _ => Err("reading type of Block"@),
                }
            } else {
                Err("reading type of Block"@)
            }
        },
        _ => Err("reading type of Block"@),
    }
}

/// What the walk finds in a list of blocks, which `value` must be.
pub open spec fn blocks_found(value: Json, path: Seq<usize>, parent: Seq<char>) -> Walked
    decreases value, 1int,
{
    match value {
        Json::List(items) => block_items_found(items@, 0, path),
        _ => Err(reading(parent, ".[Block]"@)),
    }
}

/// What the walk finds in the blocks of `items` from `from` on.
pub open spec fn block_items_found(items: Seq<Json>, from: int, path: Seq<usize>) -> Walked
    decreases items, items.len() - from,
{
    if 0 <= from < items.len() {
        and_then(
            block_found(items[from], path.push(from as usize)),
            block_items_found(items, from + 1, path),
        )
    } else {
        Ok(Seq::empty())
    }
}

/// What the walk finds in a list of lists of blocks.
pub open spec fn block_lists_found(value: Json, path: Seq<usize>, parent: Seq<char>) -> Walked
    decreases value, 1int,
{
    match value {
        Json::List(lists) => block_list_items_found(lists@, 0, path, parent),
        _ => Err(reading(parent, ".[[Block]]"@)),
    }
}

/// What the walk finds in the lists of blocks of `lists` from `from` on.
pub open spec fn block_list_items_found(
    lists: Seq<Json>,
    from: int,
    path: Seq<usize>,
    parent: Seq<char>,
) -> Walked
    decreases lists, lists.len() - from,
{
    if 0 <= from < lists.len() {
        and_then(
            blocks_found(lists[from], path.push(from as usize), parent),
            block_list_items_found(lists, from + 1, path, parent),
        )
    } else {
        Ok(Seq::empty())
    }
}

/// What the walk finds in the rows of a table: in every row the cells,
/// which are its second part, and in every cell the blocks, which are its
/// fifth.
pub open spec fn rows_found(value: Json, path: Seq<usize>, parent: Seq<char>) -> Walked
    decreases value, 1int,
{
    match value {
        Json::List(rows) => row_items_found(rows@, 0, path, parent),
        _ => Err(reading(parent, ".[Row]"@)),
    }
}

/// What the walk finds in the rows of `rows` from `from` on.
pub open spec fn row_items_found(
    rows: Seq<Json>,
    from: int,
    path: Seq<usize>,
    parent: Seq<char>,
) -> Walked
    decreases rows, rows.len() - from,
{
    if 0 <= from < rows.len() {
        and_then(
            row_found(rows[from], path.push(from as usize), parent),
            row_items_found(rows, from + 1, path, parent),
        )
    } else {
        Ok(Seq::empty())
    }
}

/// What the walk finds in one row.
pub open spec fn row_found(row: Json, path: Seq<usize>, parent: Seq<char>) -> Walked
    decreases row, 0int,
{
    match row {
        Json::List(parts) => if parts.len() > 1 {
            match parts@[1] {
                Json::List(cells) => cell_items_found(cells@, 0, path.push(1)),
                _ => Err(reading(parent, ".[Row].[Cell]"@)),
            }
        } else {
            Err(reading(parent, ".[Row].[Cell]"@))
        },
        _ => Err(reading(parent, ".[Row].[Cell]"@)),
    }
}

/// What the walk finds in the cells of `cells` from `from` on.
pub open spec fn cell_items_found(cells: Seq<Json>, from: int, path: Seq<usize>) -> Walked
    decreases cells, cells.len() - from,
{
    if 0 <= from < cells.len() {
        and_then(
            cell_found(cells[from], path.push(from as usize)),
            cell_items_found(cells, from + 1, path),
        )
    } else {
        Ok(Seq::empty())
    }
}

/// What the walk finds in one cell.
pub open spec fn cell_found(cell: Json, path: Seq<usize>) -> Walked
    decreases cell, 0int,
{
    match cell {
        Json::List(parts) => if parts.len() > 4 {
            blocks_found(parts@[4], path.push(4), cell_parent())
        } else {
            Err(reading(cell_parent(), ".[Block]"@))
        },
        _ => Err(reading(cell_parent(), ".[Block]"@)),
    }
}

/// What the walk finds in a table with the content `items`: the blocks of
/// the caption, the rows of the head, the rows of every body and the rows
/// of the foot, in this order. A part that the table does not have holds
/// nothing.
pub open spec fn table_found(items: Seq<Json>, path: Seq<usize>) -> Walked
    decreases items, 2int,
{
    and_then(
        caption_found(items, path),
        and_then(
            table_rows_found(items, 3, path, "Table.TableHead"@),
            and_then(bodies_found(items, path), table_rows_found(items, 5, path, "Table.TableFoot"@)),
        ),
    )
}

/// What the walk finds in the caption of a table: the blocks that are its
/// second part.
pub open spec fn caption_found(items: Seq<Json>, path: Seq<usize>) -> Walked
    decreases items, 1int,
{
    if items.len() > 1 {
        match items[1] {
            Json::List(parts) => if parts.len() > 1 {
                blocks_found(parts@[1], path.push(1).push(1), "Table.Caption"@)
            } else {
                Err(reading("Table.Caption"@, ".[Block]"@))
            },
            _ => Err(reading("Table.Caption"@, ".[Block]"@)),
        }
    } else {
        Ok(Seq::empty())
    }
}

/// What the walk finds in the head or the foot of a table, which is the
/// part `at` of its content: the rows that are its second part.
pub open spec fn table_rows_found(
    items: Seq<Json>,
    at: int,
    path: Seq<usize>,
    parent: Seq<char>,
) -> Walked
    decreases items, 1int,
{
    if 0 <= at < items.len() {
        match items[at] {
            Json::List(parts) => if parts.len() > 1 {
                rows_found(parts@[1], path.push(at as usize).push(1), parent)
            } else {
                Err(reading(parent, ".[Row]"@))
            },
            _ => Err(reading(parent, ".[Row]"@)),
        }
    } else {
        Ok(Seq::empty())
    }
}

/// What the walk finds in the bodies of a table, which are the fifth part
/// of its content.
pub open spec fn bodies_found(items: Seq<Json>, path: Seq<usize>) -> Walked
    decreases items, 1int,
{
    if items.len() > 4 {
        match items[4] {
            Json::List(bodies) => body_items_found(bodies@, 0, path.push(4)),
            _ => Err("reading Table.[TableBody]"@),
        }
    } else {
        Ok(Seq::empty())
    }
}

/// What the walk finds in the bodies of `bodies` from `from` on.
pub open spec fn body_items_found(bodies: Seq<Json>, from: int, path: Seq<usize>) -> Walked
    decreases bodies, bodies.len() - from,
{
    if 0 <= from < bodies.len() {
        and_then(
            body_found(bodies[from], path.push(from as usize)),
            body_items_found(bodies, from + 1, path),
        )
    } else {
        Ok(Seq::empty())
    }
}

/// What the walk finds in one body of a table: the rows of its parts from
/// the third on.
pub open spec fn body_found(body: Json, path: Seq<usize>) -> Walked
    decreases body, 0int,
{
    match body {
        Json::List(parts) => body_rows_found(parts@, 2, path),
        _ => Err("reading content of Table.[TableBody]"@),
    }
}

/// What the walk finds in the lists of rows of `parts` from `from` on.
pub open spec fn body_rows_found(parts: Seq<Json>, from: int, path: Seq<usize>) -> Walked
    decreases parts, parts.len() - from,
{
    if 0 <= from < parts.len() {
        and_then(
            rows_found(parts[from], path.push(from as usize), "Table.[TableBody].[Row]"@),
            body_rows_found(parts, from + 1, path),
        )
    } else {
        Ok(Seq::empty())
    }
}

/// Walks a list of lists of inline nodes under a node of the type
/// `parent`.
pub fn walk_list_of_inlines(
    value: &Json,
    path: &Vec<usize>,
    parent: &str,
    out: &mut Vec<Found>,
) -> (result: Result<(), UpstreamShapeError>)
    ensures
        walk_done(inline_lists_found(*value, path@, parent@), old(out)@, final(out)@, result),
{
    let ghost before = out@;
    let lists = match value {
        Json::List(lists) => lists,
        _ => {
            return Err(shape_error(parent, ".[[Inline]]"));
        },
    };
    let mut k: usize = 0;
    let ghost mut done: Seq<FoundText> = Seq::empty();
    assert(found_texts(out@) =~= found_texts(before) + done);
    while k < lists.len()
        invariant
            k <= lists.len(),
            *value == Json::List(*lists),
            before == old(out)@,
            found_texts(out@) == found_texts(before) + done,
            inline_list_items_found(lists@, 0, path@, parent@) == and_then(
                Ok(done),
                inline_list_items_found(lists@, k as int, path@, parent@),
            ),
        decreases lists.len() - k,
    {
        let ghost here = inlines_found(lists@[k as int], path@.push(k), parent@);
        match walk_inlines(&lists[k], &child_path(path, k), parent, out) {
            Ok(()) => {
                proof {
                    lemma_walked_on(
                        done,
                        here,
                        inline_list_items_found(lists@, k + 1, path@, parent@),
                    );
                    assert(found_texts(out@) =~= found_texts(before) + (done + here->Ok_0));
                    done = done + here->Ok_0;
                }
            },
            Err(e) => {
                proof {
                    lemma_prefix_kept(found_texts(before), done, found_texts(out@));
                }
                return Err(e);
            },
        }
        k += 1;
    }
    assert(done + Seq::<FoundText>::empty() =~= done);
    Ok(())
}

/// Walks a raw block with the content `c`.
fn walk_raw_block(c: &Json, path: &Vec<usize>, out: &mut Vec<Found>) -> (result: Result<
    (),
    UpstreamShapeError,
>)
    ensures
        walk_done(raw_block_found(*c, path@), old(out)@, final(out)@, result),
{
    let ghost before = out@;
    let format = match c.element(0) {
        Some(first) => first.as_text(),
        None => None,
    };
    let format = match format {
        Some(f) => f,
        None => {
            return Err(fault("reading format of RawBlock"));
        },
    };
    proof {
        reveal_strlit("");
    }
    assert(""@ =~= Seq::<char>::empty());
    if raw_block_fragment_type(format, "").is_none() {
        assert(found_texts(out@) =~= found_texts(before) + Seq::<FoundText>::empty());
        return Ok(());
    }
    let source = match c.element(1) {
        Some(second) => second.as_text(),
        None => None,
    };
    let text = match source {
        Some(t) => t,
        None => {
            return Err(fault("reading source of RawBlock"));
        },
    };
    match raw_block_fragment_type(format, text) {
        Some(kind) => {
            out.push(
                Found { ty: kind, src: String::from_str(text), inline: false, path: copy_path(path) },
            );
            assert(found_texts(out@) =~= found_texts(before) + seq![
                FoundText { ty: kind, src: text@, inline: false, path: path@ },
            ]);
        },
        None => {
            assert(found_texts(out@) =~= found_texts(before) + Seq::<FoundText>::empty());
        },
    }
    Ok(())
}

/// Walks a block.
pub fn walk_block(value: &Json, path: &Vec<usize>, out: &mut Vec<Found>) -> (result: Result<
    (),
    UpstreamShapeError,
>)
    ensures
        walk_done(block_found(*value, path@), old(out)@, final(out)@, result),
    decreases weight(*value), 0int,
{
    let ghost before = out@;
    proof {
        lemma_object_weight(*value);
    }
    let members = match value {
        Json::Object(members) => members,
        _ => {
            return Err(fault("reading type of Block"));
        },
    };
    let t = match value.member_place("t") {
        Some(t) => t,
        None => {
            return Err(fault("reading type of Block"));
        },
    };
    proof {
        lemma_key_place(members@, "t"@, 0);
        lemma_key_place(members@, "c"@, 0);
    }
    let ty = match &members[t].value {
        Json::Text(ty) => ty.as_str(),
        _ => {
            return Err(fault("reading type of Block"));
        },
    };
    let c = value.member_place("c");
    if str_equal(ty, "Para") || str_equal(ty, "Plain") {
        match c {
            Some(c) => walk_inlines(&members[c].value, &child_path(path, c), ty, out),
            None => Err(shape_error(ty, ".[Inline]")),
        }
    } else if str_equal(ty, "LineBlock") {
        match c {
            Some(c) => walk_list_of_inlines(&members[c].value, &child_path(path, c), ty, out),
            None => Err(shape_error(ty, ".[[Inline]]")),
        }
    } else if str_equal(ty, "Header") {
        match c {
            Some(c) => match &members[c].value {
                Json::List(items) => if items.len() > 2 {
                    walk_inlines(&items[2], &child_path(&child_path(path, c), 2), ty, out)
                } else {
                    Err(shape_error(ty, ".[Inline]"))
                },
                _ => Err(shape_error(ty, ".[Inline]")),
            },
            None => Err(shape_error(ty, ".[Inline]")),
        }
    } else if str_equal(ty, "BlockQuote") {
        match c {
            Some(c) => walk_blocks(&members[c].value, &child_path(path, c), ty, out),
            None => Err(shape_error(ty, ".[Block]")),
        }
    } else if str_equal(ty, "BulletList") {
        match c {
            Some(c) => walk_list_of_blocks(&members[c].value, &child_path(path, c), ty, out),
            None => Err(shape_error(ty, ".[[Block]]")),
        }
    } else if str_equal(ty, "OrderedList") || str_equal(ty, "Div") {
        match c {
            Some(c) => match &members[c].value {
                Json::List(items) => if items.len() > 1 {
                    walk_list_of_blocks(&items[1], &child_path(&child_path(path, c), 1), ty, out)
                } else {
                    Err(shape_error(ty, ".[[Block]]"))
                },
                _ => Err(shape_error(ty, ".[[Block]]")),
            },
            None => Err(shape_error(ty, ".[[Block]]")),
        }
    } else if str_equal(ty, "RawBlock") {
        let null = Json::Null;
        let content = match c {
            Some(c) => &members[c].value,
            None => &null,
        };
        walk_raw_block(content, path, out)
    } else if str_equal(ty, "Table") {
        match c {
            Some(c) => match &members[c].value {
                Json::List(items) => walk_table(items, &child_path(path, c), out),
                _ => Err(fault("reading contents of Table")),
            },
            None => Err(fault("reading contents of Table")),
        }
    } else {
        assert(found_texts(out@) =~= found_texts(before) + Seq::<FoundText>::empty());
        Ok(())
    }
}

/// Walks a list of blocks under a node of the type `parent`.
pub fn walk_blocks(value: &Json, path: &Vec<usize>, parent: &str, out: &mut Vec<Found>) -> (result:
    Result<(), UpstreamShapeError>)
    ensures
        walk_done(blocks_found(*value, path@, parent@), old(out)@, final(out)@, result),
    decreases weight(*value), 1int,
{
    let ghost before = out@;
    let items = match value {
        Json::List(items) => items,
        _ => {
            return Err(shape_error(parent, ".[Block]"));
        },
    };
    let mut k: usize = 0;
    let ghost mut done: Seq<FoundText> = Seq::empty();
    assert(found_texts(out@) =~= found_texts(before) + done);
    while k < items.len()
        invariant
            k <= items.len(),
            *value == Json::List(*items),
            before == old(out)@,
            found_texts(out@) == found_texts(before) + done,
            block_items_found(items@, 0, path@) == and_then(
                Ok(done),
                block_items_found(items@, k as int, path@),
            ),
        decreases items.len() - k,
    {
        let ghost here = block_found(items@[k as int], path@.push(k));
        proof {
            lemma_in_list(*value, k as int);
        }
        match walk_block(&items[k], &child_path(path, k), out) {
            Ok(()) => {
                proof {
                    lemma_walked_on(done, here, block_items_found(items@, k + 1, path@));
                    assert(found_texts(out@) =~= found_texts(before) + (done + here->Ok_0));
                    done = done + here->Ok_0;
                }
            },
            Err(e) => {
                proof {
                    lemma_prefix_kept(found_texts(before), done, found_texts(out@));
                }
                return Err(e);
            },
        }
        k += 1;
    }
    assert(done + Seq::<FoundText>::empty() =~= done);
    Ok(())
}

/// Walks a list of lists of blocks under a node of the type `parent`.
pub fn walk_list_of_blocks(
    value: &Json,
    path: &Vec<usize>,
    parent: &str,
    out: &mut Vec<Found>,
) -> (result: Result<(), UpstreamShapeError>)
    ensures
        walk_done(block_lists_found(*value, path@, parent@), old(out)@, final(out)@, result),
    decreases weight(*value), 1int,
{
    let ghost before = out@;
    let lists = match value {
        Json::List(lists) => lists,
        _ => {
            return Err(shape_error(parent, ".[[Block]]"));
        },
    };
    let mut k: usize = 0;
    let ghost mut done: Seq<FoundText> = Seq::empty();
    assert(found_texts(out@) =~= found_texts(before) + done);
    while k < lists.len()
        invariant
            k <= lists.len(),
            *value == Json::List(*lists),
            before == old(out)@,
            found_texts(out@) == found_texts(before) + done,
            block_list_items_found(lists@, 0, path@, parent@) == and_then(
                Ok(done),
                block_list_items_found(lists@, k as int, path@, parent@),
            ),
        decreases lists.len() - k,
    {
        let ghost here = blocks_found(lists@[k as int], path@.push(k), parent@);
        proof {
            lemma_in_list(*value, k as int);
        }
        match walk_blocks(&lists[k], &child_path(path, k), parent, out) {
            Ok(()) => {
                proof {
                    lemma_walked_on(
                        done,
                        here,
                        block_list_items_found(lists@, k + 1, path@, parent@),
                    );
                    assert(found_texts(out@) =~= found_texts(before) + (done + here->Ok_0));
                    done = done + here->Ok_0;
                }
            },
            Err(e) => {
                proof {
                    lemma_prefix_kept(found_texts(before), done, found_texts(out@));
                }
                return Err(e);
            },
        }
        k += 1;
    }
    assert(done + Seq::<FoundText>::empty() =~= done);
    Ok(())
}

/// Walks the rows of a part of a table.
pub fn walk_rows(value: &Json, path: &Vec<usize>, parent: &str, out: &mut Vec<Found>) -> (result:
    Result<(), UpstreamShapeError>)
    ensures
        walk_done(rows_found(*value, path@, parent@), old(out)@, final(out)@, result),
    decreases weight(*value), 1int,
{
    let ghost before = out@;
    let rows = match value {
        Json::List(rows) => rows,
        _ => {
            return Err(shape_error(parent, ".[Row]"));
        },
    };
    let mut k: usize = 0;
    let ghost mut done: Seq<FoundText> = Seq::empty();
    assert(found_texts(out@) =~= found_texts(before) + done);
    while k < rows.len()
        invariant
            k <= rows.len(),
            *value == Json::List(*rows),
            before == old(out)@,
            found_texts(out@) == found_texts(before) + done,
            row_items_found(rows@, 0, path@, parent@) == and_then(
                Ok(done),
                row_items_found(rows@, k as int, path@, parent@),
            ),
        decreases rows.len() - k,
    {
        let ghost here = row_found(rows@[k as int], path@.push(k), parent@);
        proof {
            lemma_in_list(*value, k as int);
        }
        match walk_row(&rows[k], &child_path(path, k), parent, out) {
            Ok(()) => {
                proof {
                    lemma_walked_on(done, here, row_items_found(rows@, k + 1, path@, parent@));
                    assert(found_texts(out@) =~= found_texts(before) + (done + here->Ok_0));
                    done = done + here->Ok_0;
                }
            },
            Err(e) => {
                proof {
                    lemma_prefix_kept(found_texts(before), done, found_texts(out@));
                }
                return Err(e);
            },
        }
        k += 1;
    }
    assert(done + Seq::<FoundText>::empty() =~= done);
    Ok(())
}

/// Walks one row of a table.
fn walk_row(row: &Json, path: &Vec<usize>, parent: &str, out: &mut Vec<Found>) -> (result: Result<
    (),
    UpstreamShapeError,
>)
    ensures
        walk_done(row_found(*row, path@, parent@), old(out)@, final(out)@, result),
    decreases weight(*row), 0int,
{
    let parts = match row {
        Json::List(parts) => parts,
        _ => {
            return Err(shape_error(parent, ".[Row].[Cell]"));
        },
    };
    if parts.len() <= 1 {
        return Err(shape_error(parent, ".[Row].[Cell]"));
    }
    match &parts[1] {
        Json::List(cells) => {
            proof {
                lemma_list_in_list(*row, 1);
            }
            walk_cells(cells, &child_path(path, 1), out)
        },
        _ => Err(shape_error(parent, ".[Row].[Cell]")),
    }
}

/// Walks the cells of a row.
fn walk_cells(cells: &Vec<Json>, path: &Vec<usize>, out: &mut Vec<Found>) -> (result: Result<
    (),
    UpstreamShapeError,
>)
    ensures
        walk_done(cell_items_found(cells@, 0, path@), old(out)@, final(out)@, result),
    decreases list_weight_of(cells@), 0int,
{
    let ghost before = out@;
    let mut k: usize = 0;
    let ghost mut done: Seq<FoundText> = Seq::empty();
    assert(found_texts(out@) =~= found_texts(before) + done);
    while k < cells.len()
        invariant
            k <= cells.len(),
            before == old(out)@,
            found_texts(out@) == found_texts(before) + done,
            cell_items_found(cells@, 0, path@) == and_then(
                Ok(done),
                cell_items_found(cells@, k as int, path@),
            ),
        decreases cells.len() - k,
    {
        let ghost here = cell_found(cells@[k as int], path@.push(k));
        proof {
            lemma_item_weight(cells@, k as int);
        }
        match walk_cell(&cells[k], &child_path(path, k), out) {
            Ok(()) => {
                proof {
                    lemma_walked_on(done, here, cell_items_found(cells@, k + 1, path@));
                    assert(found_texts(out@) =~= found_texts(before) + (done + here->Ok_0));
                    done = done + here->Ok_0;
                }
            },
            Err(e) => {
                proof {
                    lemma_prefix_kept(found_texts(before), done, found_texts(out@));
                }
                return Err(e);
            },
        }
        k += 1;
    }
    assert(done + Seq::<FoundText>::empty() =~= done);
    Ok(())
}

/// Walks one cell of a table.
fn walk_cell(cell: &Json, path: &Vec<usize>, out: &mut Vec<Found>) -> (result: Result<
    (),
    UpstreamShapeError,
>)
    ensures
        walk_done(cell_found(*cell, path@), old(out)@, final(out)@, result),
    decreases weight(*cell), 0int,
{
    let parent = "[Cell] of Row of TableHead of Table";
    match cell {
        Json::List(parts) => if parts.len() > 4 {
            proof {
                lemma_in_list(*cell, 4);
            }
            walk_blocks(&parts[4], &child_path(path, 4), parent, out)
        } else {
            Err(shape_error(parent, ".[Block]"))
        },
        _ => Err(shape_error(parent, ".[Block]")),
    }
}

/// Walks the caption of a table with the content `items`.
fn walk_caption(items: &Vec<Json>, path: &Vec<usize>, out: &mut Vec<Found>) -> (result: Result<
    (),
    UpstreamShapeError,
>)
    ensures
        walk_done(caption_found(items@, path@), old(out)@, final(out)@, result),
    decreases list_weight(items@), 1int,
{
    let parent = "Table.Caption";
    if items.len() > 1 {
        match &items[1] {
            Json::List(parts) => if parts.len() > 1 {
                proof {
                    lemma_nested_weight(items@, 1, 1);
                }
                walk_blocks(&parts[1], &child_path(&child_path(path, 1), 1), parent, out)
            } else {
                Err(shape_error(parent, ".[Block]"))
            },
            _ => Err(shape_error(parent, ".[Block]")),
        }
    } else {
        assert(found_texts(out@) =~= found_texts(old(out)@) + Seq::<FoundText>::empty());
        Ok(())
    }
}

/// Walks the head or the foot of a table, which is the part `at` of its
/// content `items`.
fn walk_table_rows(
    items: &Vec<Json>,
    at: usize,
    path: &Vec<usize>,
    parent: &str,
    out: &mut Vec<Found>,
) -> (result: Result<(), UpstreamShapeError>)
    ensures
        walk_done(
            table_rows_found(items@, at as int, path@, parent@),
            old(out)@,
            final(out)@,
            result,
        ),
    decreases list_weight(items@), 1int,
{
    if at < items.len() {
        match &items[at] {
            Json::List(parts) => if parts.len() > 1 {
                proof {
                    lemma_nested_weight(items@, at as int, 1);
                }
                walk_rows(&parts[1], &child_path(&child_path(path, at), 1), parent, out)
            } else {
                Err(shape_error(parent, ".[Row]"))
            },
            _ => Err(shape_error(parent, ".[Row]")),
        }
    } else {
        assert(found_texts(out@) =~= found_texts(old(out)@) + Seq::<FoundText>::empty());
        Ok(())
    }
}

/// Walks one body of a table.
fn walk_body(body: &Json, path: &Vec<usize>, out: &mut Vec<Found>) -> (result: Result<
    (),
    UpstreamShapeError,
>)
    ensures
        walk_done(body_found(*body, path@), old(out)@, final(out)@, result),
    decreases weight(*body), 0int,
{
    let ghost before = out@;
    let parts = match body {
        Json::List(parts) => parts,
        _ => {
            return Err(fault("reading content of Table.[TableBody]"));
        },
    };
    let mut k: usize = 2;
    let ghost mut done: Seq<FoundText> = Seq::empty();
    assert(found_texts(out@) =~= found_texts(before) + done);
    while k < parts.len()
        invariant
            2 <= k,
            *body == Json::List(*parts),
            before == old(out)@,
            found_texts(out@) == found_texts(before) + done,
            body_rows_found(parts@, 2, path@) == and_then(
                Ok(done),
                body_rows_found(parts@, k as int, path@),
            ),
        decreases parts.len() - k,
    {
        let ghost here = rows_found(parts@[k as int], path@.push(k), "Table.[TableBody].[Row]"@);
        proof {
            lemma_in_list(*body, k as int);
        }
        match walk_rows(&parts[k], &child_path(path, k), "Table.[TableBody].[Row]", out) {
            Ok(()) => {
                proof {
                    lemma_walked_on(done, here, body_rows_found(parts@, k + 1, path@));
                    assert(found_texts(out@) =~= found_texts(before) + (done + here->Ok_0));
                    done = done + here->Ok_0;
                }
            },
            Err(e) => {
                proof {
                    lemma_prefix_kept(found_texts(before), done, found_texts(out@));
                }
                return Err(e);
            },
        }
        k += 1;
    }
    assert(done + Seq::<FoundText>::empty() =~= done);
    Ok(())
}

/// Walks the bodies of a table with the content `items`.
fn walk_bodies(items: &Vec<Json>, path: &Vec<usize>, out: &mut Vec<Found>) -> (result: Result<
    (),
    UpstreamShapeError,
>)
    ensures
        walk_done(bodies_found(items@, path@), old(out)@, final(out)@, result),
    decreases list_weight(items@), 1int,
{
    if items.len() <= 4 {
        assert(found_texts(out@) =~= found_texts(old(out)@) + Seq::<FoundText>::empty());
        return Ok(());
    }
    match &items[4] {
        Json::List(bodies) => {
            proof {
                lemma_list_weight(items@, 4);
                lemma_whole_list(items@[4]);
            }
            walk_body_items(bodies, &child_path(path, 4), out)
        },
        _ => Err(fault("reading Table.[TableBody]")),
    }
}

/// Walks the bodies of a table.
fn walk_body_items(bodies: &Vec<Json>, path: &Vec<usize>, out: &mut Vec<Found>) -> (result: Result<
    (),
    UpstreamShapeError,
>)
    ensures
        walk_done(body_items_found(bodies@, 0, path@), old(out)@, final(out)@, result),
    decreases list_weight_of(bodies@), 0int,
{
    let ghost before = out@;
    let mut k: usize = 0;
    let ghost mut done: Seq<FoundText> = Seq::empty();
    assert(found_texts(out@) =~= found_texts(before) + done);
    while k < bodies.len()
        invariant
            k <= bodies.len(),
            before == old(out)@,
            found_texts(out@) == found_texts(before) + done,
            body_items_found(bodies@, 0, path@) == and_then(
                Ok(done),
                body_items_found(bodies@, k as int, path@),
            ),
        decreases bodies.len() - k,
    {
        let ghost here = body_found(bodies@[k as int], path@.push(k));
        proof {
            lemma_item_weight(bodies@, k as int);
        }
        match walk_body(&bodies[k], &child_path(path, k), out) {
            Ok(()) => {
                proof {
                    lemma_walked_on(done, here, body_items_found(bodies@, k + 1, path@));
                    assert(found_texts(out@) =~= found_texts(before) + (done + here->Ok_0));
                    done = done + here->Ok_0;
                }
            },
            Err(e) => {
                proof {
                    lemma_prefix_kept(found_texts(before), done, found_texts(out@));
                }
                return Err(e);
            },
        }
        k += 1;
    }
    assert(done + Seq::<FoundText>::empty() =~= done);
    Ok(())
}

/// Two walks one after the other have done what the two say one after the
/// other.
proof fn lemma_walk_seq(
    first: Walked,
    second: Walked,
    before: Seq<Found>,
    between: Seq<Found>,
    after: Seq<Found>,
    result: Result<(), UpstreamShapeError>,
)
    requires
        walk_done(first, before, between, Ok(())),
        walk_done(second, between, after, result),
    ensures
        walk_done(and_then(first, second), before, after, result),
{
    if result is Ok {
        assert(found_texts(before) + (first->Ok_0 + second->Ok_0) =~= (found_texts(before)
            + first->Ok_0) + second->Ok_0);
    }
}

/// Walks a table with the content `items`.
fn walk_table(items: &Vec<Json>, path: &Vec<usize>, out: &mut Vec<Found>) -> (result: Result<
    (),
    UpstreamShapeError,
>)
    ensures
        walk_done(table_found(items@, path@), old(out)@, final(out)@, result),
    decreases list_weight(items@), 2int,
{
    let ghost caption = caption_found(items@, path@);
    let ghost head = table_rows_found(items@, 3, path@, "Table.TableHead"@);
    let ghost bodies = bodies_found(items@, path@);
    let ghost foot = table_rows_found(items@, 5, path@, "Table.TableFoot"@);
    let ghost start = out@;
    match walk_caption(items, path, out) {
        Ok(()) => {},
        Err(e) => {
            return Err(e);
        },
    }
    let ghost captioned = out@;
    match walk_table_rows(items, 3, path, "Table.TableHead", out) {
        Ok(()) => {},
        Err(e) => {
            return Err(e);
        },
    }
    let ghost headed = out@;
    match walk_bodies(items, path, out) {
        Ok(()) => {},
        Err(e) => {
            return Err(e);
        },
    }
    let ghost bodied = out@;
    let result = walk_table_rows(items, 5, path, "Table.TableFoot", out);
    proof {
        lemma_walk_seq(bodies, foot, headed, bodied, out@, result);
        lemma_walk_seq(head, and_then(bodies, foot), captioned, headed, out@, result);
        lemma_walk_seq(
            caption,
            and_then(head, and_then(bodies, foot)),
            start,
            captioned,
            out@,
            result,
        );
    }
    result
}

/// What the walk finds in a document: the fragments of the blocks that
/// are its member `blocks`.
pub open spec fn document_found(tree: Json) -> Walked {
    match tree {
        Json::Object(members) => {
            let at = key_place(members@, "blocks"@);
            if 0 <= at < members.len() {
                match members@[at].value {
                    Json::List(items) => block_items_found(
                        items@,
                        0,
                        Seq::<usize>::empty().push(at as usize),
                    ),
                    _ => Err("reading [blocks] of the Document"@),
                }
            } else {
                Err("reading [blocks] of the Document"@)
            }
        },
        _ => Err("reading [blocks] of the Document"@),
    }
}

/// Walks a document and returns the nodes that hold a fragment, in the
/// order of the document: every math node, and every raw block in the
/// format of the typesetter. A document that does not have the shape that
/// is expected of it is refused with the context of the first fault.
pub fn walk_document(tree: &Json) -> (result: Result<Vec<Found>, UpstreamShapeError>)
    ensures
        match result {
            Ok(found) => document_found(*tree) == Ok::<Seq<FoundText>, Seq<char>>(
                found_texts(found@),
            ),
            Err(e) => document_found(*tree) == Err::<Seq<FoundText>, Seq<char>>(e.context@),
        },
{
    let mut found: Vec<Found> = Vec::new();
    let members = match tree {
        Json::Object(members) => members,
        _ => {
            return Err(fault("reading [blocks] of the Document"));
        },
    };
    let at = match tree.member_place("blocks") {
        Some(at) => at,
        None => {
            return Err(fault("reading [blocks] of the Document"));
        },
    };
    proof {
        lemma_key_place(members@, "blocks"@, 0);
    }
    let blocks = &members[at].value;
    match blocks {
        Json::List(_) => {},
        _ => {
            return Err(fault("reading [blocks] of the Document"));
        },
    }
    let mut path: Vec<usize> = Vec::new();
    path.push(at);
    assert(path@ =~= Seq::<usize>::empty().push(at));
    assert(found_texts(found@) =~= Seq::<FoundText>::empty());
    match walk_blocks(blocks, &path, "[blocks] of the Document", &mut found) {
        Ok(()) => {
            assert(found_texts(found@) =~= blocks_found(
                *blocks,
                path@,
                "[blocks] of the Document"@,
            )->Ok_0);
            Ok(found)
        },
        Err(e) => Err(e),
    }
}

/// `after` is `before` with the value at the end of the way `path`
/// replaced by `node`, and nothing else changed. The way names the place of
/// a child at every step: of an element in a list, of a member in an
/// object.
pub open spec fn is_replaced(before: Json, after: Json, path: Seq<usize>, node: Json) -> bool
    decreases path.len(),
{
    if path.len() == 0 {
        after == node
    } else {
        match (before, after) {
            (Json::List(a), Json::List(b)) => {
                &&& path[0] < a.len()
                &&& b.len() == a.len()
                &&& forall|i: int| 0 <= i < a.len() && i != path[0] ==> #[trigger] b@[i] == a@[i]
                &&& is_replaced(a@[path[0] as int], b@[path[0] as int], path.skip(1), node)
            },
            (Json::Object(a), Json::Object(b)) => {
                &&& path[0] < a.len()
                &&& b.len() == a.len()
                &&& forall|i: int| 0 <= i < a.len() && i != path[0] ==> #[trigger] b@[i] == a@[i]
                &&& b@[path[0] as int].key == a@[path[0] as int].key
                &&& is_replaced(
                    a@[path[0] as int].value,
                    b@[path[0] as int].value,
                    path.skip(1),
                    node,
                )
            },
            _ => false,
        }
    }
}

/// The way `path` leads to a value of the tree.
pub open spec fn leads(value: Json, path: Seq<usize>) -> bool
    decreases path.len(),
{
    if path.len() == 0 {
        true
    } else {
        match value {
            Json::List(items) => path[0] < items.len() && leads(
                items@[path[0] as int],
                path.skip(1),
            ),
            Json::Object(members) => path[0] < members.len() && leads(
                members@[path[0] as int].value,
                path.skip(1),
            ),
            _ => false,
        }
    }
}

/// Whether the way that `path` names from `from` on leads to a value.
fn has_way(value: &Json, path: &Vec<usize>, from: usize) -> (yes: bool)
    requires
        from <= path.len(),
    ensures
        yes == leads(*value, path@.skip(from as int)),
    decreases path.len() - from,
{
    let ghost rest = path@.skip(from as int);
    if from == path.len() {
        return true;
    }
    assert(rest.len() > 0 && rest[0] == path@[from as int]);
    assert(rest.skip(1) =~= path@.skip(from + 1));
    let at = path[from];
    match value {
        Json::List(items) => at < items.len() && has_way(&items[at], path, from + 1),
        Json::Object(members) => at < members.len() && has_way(&members[at].value, path, from + 1),
        _ => false,
    }
}

/// Puts `node` in the place of the value at the end of the way that
/// `path` names from `from` on.
fn put_at(value: &mut Json, path: &Vec<usize>, from: usize, node: Json)
    requires
        from <= path.len(),
        leads(*old(value), path@.skip(from as int)),
    ensures
        is_replaced(*old(value), *final(value), path@.skip(from as int), node),
    decreases path.len() - from,
{
    let ghost rest = path@.skip(from as int);
    if from == path.len() {
        *value = node;
        return ;
    }
    assert(rest.len() > 0 && rest[0] == path@[from as int]);
    assert(rest.skip(1) =~= path@.skip(from + 1));
    let at = path[from];
    match value {
        Json::List(items) => {
            put_at(&mut items[at], path, from + 1, node);
        },
        Json::Object(members) => {
            put_at(&mut members[at].value, path, from + 1, node);
        },
        _ => {},
    }
    let ghost was = *old(value);
    let ghost is = *value;
    proof {
        match was {
            Json::List(a) => {
                assert(is is List);
                let b = is->List_0;
                assert(is_replaced(a@[at as int], b@[at as int], rest.skip(1), node));
            },
            Json::Object(a) => {
                assert(is is Object);
                let b = is->Object_0;
                assert(is_replaced(a@[at as int].value, b@[at as int].value, rest.skip(1), node));
            },
            _ => {},
        }
    }
}

/// Puts `node` in the place of the value at the end of the way `path`.
/// Returns whether the way leads to a value; if not, the tree is as it was.
pub fn replace_at(tree: &mut Json, path: &Vec<usize>, node: Json) -> (done: bool)
    ensures
        done == leads(*old(tree), path@),
        done ==> is_replaced(*old(tree), *final(tree), path@, node),
        !done ==> *final(tree) == *old(tree),
{
    assert(path@.skip(0) =~= path@);
    if has_way(tree, path, 0) {
        put_at(tree, path, 0, node);
        true
    } else {
        false
    }
}

/// The node that stands for a fragment: raw markup, inline or as a block.
pub open spec fn is_raw_html(node: Json, inline: bool, html: Seq<char>) -> bool {
    node matches Json::Object(members) && {
        &&& members.len() == 2
        &&& members@[0].key@ == "t"@
        &&& text_of(members@[0].value) == Some(if inline { "RawInline"@ } else { "RawBlock"@ })
        &&& members@[1].key@ == "c"@
        &&& members@[1].value matches Json::List(items) && {
            &&& items.len() == 2
            &&& text_of(items@[0]) == Some("html"@)
            &&& text_of(items@[1]) == Some(html)
        }
    }
}

/// The node that stands for a fragment whose markup is `html`.
pub fn raw_html(inline: bool, html: String) -> (node: Json)
    ensures
        is_raw_html(node, inline, html@),
{
    let ty = if inline { String::from_str("RawInline") } else { String::from_str("RawBlock") };
    let mut items: Vec<Json> = Vec::new();
    items.push(Json::Text(String::from_str("html")));
    items.push(Json::Text(html));
    let mut members: Vec<Member> = Vec::new();
    members.push(Member { key: String::from_str("t"), value: Json::Text(ty) });
    members.push(Member { key: String::from_str("c"), value: Json::List(items) });
    Json::Object(members)
}

/// `after` is `before` with an empty node appended to its blocks, and
/// `path` is the way to that node.
pub open spec fn is_final_pushed(before: Json, after: Json, path: Seq<usize>) -> bool {
    &&& before matches Json::Object(was)
    &&& after matches Json::Object(is)
    &&& path.len() == 2
    &&& path[0] == key_place(was@, "blocks"@)
    &&& is.len() == was.len()
    &&& forall|i: int| 0 <= i < was.len() && i != path[0] ==> #[trigger] is@[i] == was@[i]
    &&& is@[path[0] as int].key == was@[path[0] as int].key
    &&& was@[path[0] as int].value matches Json::List(blocks)
    &&& is@[path[0] as int].value matches Json::List(grown)
    &&& path[1] == blocks.len()
    &&& grown.len() == blocks.len() + 1
    &&& forall|i: int| 0 <= i < blocks.len() ==> #[trigger] grown@[i] == blocks@[i]
    &&& grown@[blocks.len() as int] matches Json::Object(none) && none.len() == 0
}

/// Whether a document has a list of blocks.
pub open spec fn has_blocks(tree: Json) -> bool {
    tree matches Json::Object(members) && 0 <= key_place(members@, "blocks"@) < members.len()
        && members@[key_place(members@, "blocks"@)].value is List
}

/// Appends an empty node to the blocks of a document and returns the way
/// to it: the node that takes what the document needs to show its images.
/// Returns `None`, and leaves the document as it is, if the document has no
/// list of blocks.
pub fn push_final_node(tree: &mut Json) -> (path: Option<Vec<usize>>)
    ensures
        match path {
            Some(p) => has_blocks(*old(tree)) && is_final_pushed(*old(tree), *final(tree), p@),
            None => !has_blocks(*old(tree)) && *final(tree) == *old(tree),
        },
{
    let at = match tree.member_place("blocks") {
        Some(at) => at,
        None => {
            return None;
        },
    };
    let listed = match tree {
        Json::Object(members) => {
            proof {
                lemma_key_place(members@, "blocks"@, 0);
            }
            match &members[at].value {
                Json::List(_) => true,
                _ => false,
            }
        },
        _ => false,
    };
    if !listed {
        return None;
    }
    let mut path: Vec<usize> = Vec::new();
    path.push(at);
    match tree {
        Json::Object(members) => {
            match &mut members[at].value {
                Json::List(blocks) => {
                    path.push(blocks.len());
                    blocks.push(Json::Object(Vec::new()));
                },
                _ => {},
            }
        },
        _ => {},
    }
    Some(path)
}

/// Walks a document as [`walk_document`] does, and then appends the empty
/// node that takes what the document needs to show its images. Returns the
/// nodes that hold a fragment and the way to the appended node. A document
/// that is refused is left as it is.
pub fn walk_and_create_final_node(tree: &mut Json) -> (result: Result<
    (Vec<Found>, Vec<usize>),
    UpstreamShapeError,
>)
    ensures
        match result {
            Ok((found, path)) => document_found(*old(tree)) == Ok::<Seq<FoundText>, Seq<char>>(
                found_texts(found@),
            ) && is_final_pushed(*old(tree), *final(tree), path@),
            Err(e) => document_found(*old(tree)) == Err::<Seq<FoundText>, Seq<char>>(e.context@)
                && *final(tree) == *old(tree),
        },
{
    let found = match walk_document(tree) {
        Ok(found) => found,
        Err(e) => {
            return Err(e);
        },
    };
    match push_final_node(tree) {
        Some(path) => Ok((found, path)),
        None => {
            proof {
                if let Json::Object(members) = *old(tree) {
                    lemma_key_place(members@, "blocks"@, 0);
                }
            }
            Err(fault("reading [blocks] of the Document"))
        },
    }
}

} // verus!
