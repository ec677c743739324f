//! The metadata of a document: what it says of the configuration of the
//! render.
//!
//! The front matter of a document may override the configuration, under
//! the key `jlconfig` as a map, or under keys that start with `jlconfig.`.
//! This module reads the overrides off the document; putting them over the
//! configuration is for whoever loads it.

use vstd::prelude::*;
use vstd::string::StringExecFns;
use vstd::string::StrSliceExecFns;
use crate::doc::{
    element_of, key_place, lemma_in_list, lemma_item_weight, lemma_key_place,
    lemma_member_weight, lemma_object_weight, list_weight_of, members_weight_of, text_member,
    text_of, weight, Json, Member, UpstreamShapeError,
};
use crate::text::{decimal, has_prefix, push_decimal, str_equal};

verus! {

/// The value of an override.
#[derive(Debug, PartialEq, Eq)]
pub enum MetaValue {
    Text(String),
    Flag(bool),
}

/// An override of the configuration: the key of a setting, with a point
/// between the parts of the key and the number of an element between
/// brackets, and the value that the setting is given.
#[derive(Debug, PartialEq, Eq)]
pub struct Override {
    pub key: String,
    pub value: MetaValue,
}

/// What the value of an override says.
pub enum MetaValueText {
    Text(Seq<char>),
    Flag(bool),
}

/// What an override says.
pub struct OverrideText {
    pub key: Seq<char>,
    pub value: MetaValueText,
}

impl View for Override {
    type V = OverrideText;

    open spec fn view(&self) -> OverrideText {
        OverrideText {
            key: self.key@,
            value: match self.value {
                MetaValue::Text(s) => MetaValueText::Text(s@),
                MetaValue::Flag(b) => MetaValueText::Flag(b),
            },
        }
    }
}

/// What a list of overrides says.
pub open spec fn override_texts(found: Seq<Override>) -> Seq<OverrideText> {
    Seq::new(found.len(), |i: int| found[i]@)
}

/// A text that was read, or the context of the first fault.
pub type ReadText = Result<Seq<char>, Seq<char>>;

/// The overrides that were read, or the context of the first fault.
pub type Overridden = Result<Seq<OverrideText>, Seq<char>>;

/// One text after another.
pub open spec fn text_then(first: ReadText, second: ReadText) -> ReadText {
    match first {
        Err(e) => Err(e),
        Ok(a) => match second {
            Err(e) => Err(e),
            Ok(b) => Ok(a + b),
        },
    }
}

/// Overrides after overrides.
pub open spec fn over_then(first: Overridden, second: Overridden) -> Overridden {
    match first {
        Err(e) => Err(e),
        Ok(a) => match second {
            Err(e) => Err(e),
            Ok(b) => Ok(a + b),
        },
    }
}

/// Reading on after `done` with `here` and then `next` is reading on after
/// `done` and what `here` reads with `next`.
pub proof fn lemma_text_on(done: Seq<char>, here: ReadText, next: ReadText)
    requires
        here is Ok,
    ensures
        text_then(Ok(done), text_then(here, next)) == text_then(Ok(done + here->Ok_0), next),
{
    if let Ok(b) = next {
        assert(done + (here->Ok_0 + b) =~= (done + here->Ok_0) + b);
    }
}

/// Reading on after `done` with `here` and then `next` is reading on after
/// `done` and what `here` reads with `next`.
pub proof fn lemma_over_on(done: Seq<OverrideText>, here: Overridden, next: Overridden)
    requires
        here is Ok,
    ensures
        over_then(Ok(done), over_then(here, next)) == over_then(Ok(done + here->Ok_0), next),
{
    if let Ok(b) = next {
        assert(done + (here->Ok_0 + b) =~= (done + here->Ok_0) + b);
    }
}

/// The value of the member `key` of an object, or nothing.
pub open spec fn member_or_null(value: Json, key: Seq<char>) -> Json {
    match value {
        Json::Object(members) => {
            let at = key_place(members@, key);
            if 0 <= at < members.len() {
                members@[at].value
            } else {
                Json::Null
            }
        },
        _ => Json::Null,
    }
}

/// The text of the second element of a value.
pub open spec fn second_text(value: Json) -> Option<Seq<char>> {
    match element_of(value, 1) {
        Some(second) => text_of(second),
        None => None,
    }
}

/// An inline node whose text is the text of the inline nodes in it.
pub open spec fn is_meta_wrapper(ty: Seq<char>) -> bool {
    ty == "Emph"@ || ty == "Strong"@ || ty == "Underline"@
}

/// An inline node whose text is the second part of its content.
pub open spec fn is_meta_verbatim(ty: Seq<char>) -> bool {
    ty == "RawInline"@ || ty == "Code"@ || ty == "Math"@
}

/// The text of an inline node of the metadata.
pub open spec fn meta_inline_text(value: Json) -> ReadText
    decreases value, 0int,
{
    match value {
        Json::Object(members) => {
            let t = key_place(members@, "t"@);
            let c = key_place(members@, "c"@);
            if 0 <= t < members.len() {
                match members@[t].value {
                    Json::Text(ty) => {
                        if ty@ == "Str"@ {
                            match text_of(member_or_null(value, "c"@)) {
                                Some(text) => Ok(text),
                                None => Err("reading content of Meta.Inline.Str"@),
                            }
                        } else if is_meta_verbatim(ty@) {
                            match second_text(member_or_null(value, "c"@)) {
                                Some(text) => Ok(text),
                                None => Err(
                                    "reading content of Meta.Inline.RawInline/Code/Math"@,
                                ),
                            }
                        } else if is_meta_wrapper(ty@) {
                            if 0 <= c < members.len() {
                                meta_inlines_text(members@[c].value)
                            } else {
                                Err("reading Meta.[Inline]"@)
                            }
                        } else if ty@ == "Space"@ {
                            Ok(" "@)
                        } else {
                            Err("unsupported Inline type in Meta: "@ + ty@)
                        }
                    },
                    _ => Err("reading type of Meta.Inline"@),
                }
            } else {
                Err("reading type of Meta.Inline"@)
            }
        },
        _ => Err("reading type of Meta.Inline"@),
    }
}

/// The text of a list of inline nodes of the metadata.
pub open spec fn meta_inlines_text(value: Json) -> ReadText
    decreases value, 1int,
{
    match value {
        Json::List(items) => meta_inline_items_text(items@, 0),
        _ => Err("reading Meta.[Inline]"@),
    }
}

/// The text of the inline nodes of `items` from `from` on.
pub open spec fn meta_inline_items_text(items: Seq<Json>, from: int) -> ReadText
    decreases items, items.len() - from,
{
    if 0 <= from < items.len() {
        text_then(meta_inline_text(items[from]), meta_inline_items_text(items, from + 1))
    } else {
        Ok(Seq::empty())
    }
}

/// The text of a block of the metadata, with a line feed after it.
pub open spec fn meta_block_text(value: Json) -> ReadText {
    match text_member(value, "t"@) {
        None => Err("reading type of Meta.Block"@),
        Some(ty) => {
            let body = if ty == "Plain"@ || ty == "Para"@ {
                meta_inlines_text(member_or_null(value, "c"@))
            } else if ty == "RawBlock"@ || ty == "CodeBlock"@ {
                match second_text(member_or_null(value, "c"@)) {
                    Some(text) => Ok(text),
                    None => Err("reading content of Meta.Block.RawBlock/CodeBlock"@),
                }
            } else {
                Err("unsupported Inline type in Meta: "@ + ty)
            };
            text_then(body, Ok("\n"@))
        },
    }
}

/// The text of a list of blocks of the metadata.
pub open spec fn meta_blocks_text(value: Json) -> ReadText {
    match value {
        Json::List(items) => meta_block_items_text(items@, 0),
        _ => Err("reading Meta.[Block]"@),
    }
}

/// The text of the blocks of `items` from `from` on.
pub open spec fn meta_block_items_text(items: Seq<Json>, from: int) -> ReadText
    decreases items.len() - from,
{
    if 0 <= from < items.len() {
        text_then(meta_block_text(items[from]), meta_block_items_text(items, from + 1))
    } else {
        Ok(Seq::empty())
    }
}

/// The fault with the context `context`.
fn fault(context: &str) -> (e: UpstreamShapeError)
    ensures
        e.context@ == context@,
{
    UpstreamShapeError { context: String::from_str(context) }
}

/// The fault that a type is not known, with the context `context` and the
/// type.
fn unknown(context: &str, ty: &str) -> (e: UpstreamShapeError)
    ensures
        e.context@ == context@ + ty@,
{
    let mut text = String::from_str(context);
    text.append(ty);
    UpstreamShapeError { context: text }
}

/// Whether reading that has appended to `before` and come to `result` has
/// done what `read` says.
pub open spec fn text_done(
    read: ReadText,
    before: Seq<char>,
    after: Seq<char>,
    result: Result<(), UpstreamShapeError>,
) -> bool {
    match result {
        Ok(()) => read is Ok && after == before + read->Ok_0,
        Err(e) => read == Err::<Seq<char>, Seq<char>>(e.context@),
    }
}

/// The value of the member `key` of an object, or nothing.
fn member_of<'a>(value: &'a Json, key: &str, null: &'a Json) -> (found: &'a Json)
    requires
        *null == Json::Null,
    ensures
        *found == member_or_null(*value, key@),
{
    match value.member(key) {
        Some(v) => v,
        None => null,
    }
}

/// The text of the second element of a value.
fn second_text_of(value: &Json) -> (text: Option<&str>)
    ensures
        match text {
            Some(t) => second_text(*value) == Some(t@),
            None => second_text(*value) is None,
        },
{
    match value.element(1) {
        Some(second) => second.as_text(),
        None => None,
    }
}

/// Appends the text of an inline node of the metadata.
pub fn meta_inline_to_string(value: &Json, content: &mut String) -> (result: Result<
    (),
    UpstreamShapeError,
>)
    ensures
        text_done(meta_inline_text(*value), old(content)@, final(content)@, result),
    decreases weight(*value), 0int,
{
    let ghost before = content@;
    proof {
        lemma_object_weight(*value);
    }
    let members = match value {
        Json::Object(members) => members,
        _ => {
            return Err(fault("reading type of Meta.Inline"));
        },
    };
    let t = match value.member_place("t") {
        Some(t) => t,
        None => {
            return Err(fault("reading type of Meta.Inline"));
        },
    };
    proof {
        lemma_key_place(members@, "t"@, 0);
        lemma_key_place(members@, "c"@, 0);
    }
    let ty = match &members[t].value {
        Json::Text(ty) => ty.as_str(),
        _ => {
            return Err(fault("reading type of Meta.Inline"));
        },
    };
    let null = Json::Null;
    if str_equal(ty, "Str") {
        match member_of(value, "c", &null).as_text() {
            Some(text) => {
                content.append(text);
                Ok(())
            },
            None => Err(fault("reading content of Meta.Inline.Str")),
        }
    } else if str_equal(ty, "RawInline") || str_equal(ty, "Code") || str_equal(ty, "Math") {
        match second_text_of(member_of(value, "c", &null)) {
            Some(text) => {
                content.append(text);
                Ok(())
            },
            None => Err(fault("reading content of Meta.Inline.RawInline/Code/Math")),
        }
    } else if str_equal(ty, "Emph") || str_equal(ty, "Strong") || str_equal(ty, "Underline") {
        match value.member_place("c") {
            Some(c) => meta_inlines_to_string(&members[c].value, content),
            None => Err(fault("reading Meta.[Inline]")),
        }
    } else if str_equal(ty, "Space") {
        content.append(" ");
        Ok(())
    } else {
        Err(unknown("unsupported Inline type in Meta: ", ty))
    }
}

/// Appends the text of a list of inline nodes of the metadata.
pub fn meta_inlines_to_string(value: &Json, content: &mut String) -> (result: Result<
    (),
    UpstreamShapeError,
>)
    ensures
        text_done(meta_inlines_text(*value), old(content)@, final(content)@, result),
    decreases weight(*value), 1int,
{
    let ghost before = content@;
    let items = match value {
        Json::List(items) => items,
        _ => {
            return Err(fault("reading Meta.[Inline]"));
        },
    };
    let mut k: usize = 0;
    let ghost mut done: Seq<char> = Seq::empty();
    assert(content@ =~= before + done);
    while k < items.len()
        invariant
            k <= items.len(),
            *value == Json::List(*items),
            content@ == before + done,
            meta_inline_items_text(items@, 0) == text_then(
                Ok(done),
                meta_inline_items_text(items@, k as int),
            ),
        decreases items.len() - k,
    {
        let ghost here = meta_inline_text(items@[k as int]);
        proof {
            lemma_in_list(*value, k as int);
        }
        match meta_inline_to_string(&items[k], content) {
            Ok(()) => {
                proof {
                    lemma_text_on(done, here, meta_inline_items_text(items@, k + 1));
                    assert(content@ =~= before + (done + here->Ok_0));
                    done = done + here->Ok_0;
                }
            },
            Err(e) => {
                return Err(e);
            },
        }
        k += 1;
    }
    assert(done + Seq::<char>::empty() =~= done);
    Ok(())
}

/// Appends the text of a block of the metadata and a line feed.
fn meta_block_to_string(value: &Json, content: &mut String) -> (result: Result<
    (),
    UpstreamShapeError,
>)
    ensures
        text_done(meta_block_text(*value), old(content)@, final(content)@, result),
{
    let ghost before = content@;
    let ty = match value.text_at("t") {
        Some(ty) => ty,
        None => {
            return Err(fault("reading type of Meta.Block"));
        },
    };
    let null = Json::Null;
    let c = member_of(value, "c", &null);
    let ghost body: Seq<char>;
    if str_equal(ty, "Plain") || str_equal(ty, "Para") {
        match meta_inlines_to_string(c, content) {
            Ok(()) => {
                proof {
                    body = meta_inlines_text(*c)->Ok_0;
                }
            },
            Err(e) => {
                return Err(e);
            },
        }
    } else if str_equal(ty, "RawBlock") || str_equal(ty, "CodeBlock") {
        match second_text_of(c) {
            Some(text) => {
                content.append(text);
                proof {
                    body = text@;
                }
            },
            None => {
                return Err(fault("reading content of Meta.Block.RawBlock/CodeBlock"));
            },
        }
    } else {
        return Err(unknown("unsupported Inline type in Meta: ", ty));
    }
    assert(content@ == before + body);
    content.append("\n");
    assert(content@ =~= before + (body + "\n"@));
    Ok(())
}

/// Appends the text of a list of blocks of the metadata: the text of
/// every block, each with a line feed after it.
pub fn meta_blocks_to_string(value: &Json, content: &mut String) -> (result: Result<
    (),
    UpstreamShapeError,
>)
    ensures
        text_done(meta_blocks_text(*value), old(content)@, final(content)@, result),
{
    let ghost before = content@;
    let items = match value {
        Json::List(items) => items,
        _ => {
            return Err(fault("reading Meta.[Block]"));
        },
    };
    let mut k: usize = 0;
    let ghost mut done: Seq<char> = Seq::empty();
    assert(content@ =~= before + done);
    while k < items.len()
        invariant
            k <= items.len(),
            *value == Json::List(*items),
            content@ == before + done,
            meta_block_items_text(items@, 0) == text_then(
                Ok(done),
                meta_block_items_text(items@, k as int),
            ),
        decreases items.len() - k,
    {
        let ghost here = meta_block_text(items@[k as int]);
        match meta_block_to_string(&items[k], content) {
            Ok(()) => {
                proof {
                    lemma_text_on(done, here, meta_block_items_text(items@, k + 1));
                    assert(content@ =~= before + (done + here->Ok_0));
                    done = done + here->Ok_0;
                }
            },
            Err(e) => {
                return Err(e);
            },
        }
        k += 1;
    }
    assert(done + Seq::<char>::empty() =~= done);
    Ok(())
}

/// The key of the member `name` under the key `key`.
pub open spec fn member_key(key: Seq<char>, name: Seq<char>) -> Seq<char> {
    key + "."@ + name
}

/// The key of the element numbered `i` under the key `key`.
pub open spec fn element_key(key: Seq<char>, i: int) -> Seq<char> {
    key + "["@ + decimal(i as nat) + "]"@
}

/// One override of the key `key` with a text, if the text was read.
pub open spec fn text_override(key: Seq<char>, read: ReadText) -> Overridden {
    match read {
        Ok(text) => Ok(seq![OverrideText { key, value: MetaValueText::Text(text) }]),
        Err(e) => Err(e),
    }
}

/// The overrides that a value of the metadata holds for the key `key`: a
/// text, a switch, or what the members of a map and the elements of a list
/// hold for the keys below `key`.
pub open spec fn meta_found(value: Json, key: Seq<char>) -> Overridden
    decreases value, 0int,
{
    match value {
        Json::Object(members) => {
            let t = key_place(members@, "t"@);
            let c = key_place(members@, "c"@);
            let content = member_or_null(value, "c"@);
            if 0 <= t < members.len() {
                match members@[t].value {
                    Json::Text(ty) => {
                        if ty@ == "MetaInlines"@ {
                            text_override(key, meta_inlines_text(content))
                        } else if ty@ == "MetaBlocks"@ {
                            text_override(key, meta_blocks_text(content))
                        } else if ty@ == "MetaMap"@ {
                            if 0 <= c < members.len() {
                                match members@[c].value {
                                    Json::Object(inner) => meta_members_found(inner@, 0, key),
                                    _ => Err("reading map of MetaMap"@),
                                }
                            } else {
                                Err("reading map of MetaMap"@)
                            }
                        } else if ty@ == "MetaList"@ {
                            if 0 <= c < members.len() {
                                match members@[c].value {
                                    Json::List(items) => meta_items_found(items@, 0, key),
                                    _ => Err("reading array of MetaList"@),
                                }
                            } else {
                                Err("reading array of MetaList"@)
                            }
                        } else if ty@ == "MetaString"@ {
                            match text_of(content) {
                                Some(text) => Ok(
                                    seq![OverrideText { key, value: MetaValueText::Text(text) }],
                                ),
                                None => Err("reading value of MetaString"@),
                            }
                        } else if ty@ == "MetaBool"@ {
                            match content {
                                Json::Bool(b) => Ok(
                                    seq![OverrideText { key, value: MetaValueText::Flag(b) }],
                                ),
                                _ => Err("reading value of MetaBool"@),
                            }
                        } else {
                            Err("unsupported Meta type: "@ + ty@)
                        }
                    },
                    _ => Err("reading type of Meta"@),
                }
            } else {
                Err("reading type of Meta"@)
            }
        },
        _ => Err("reading type of Meta"@),
    }
}

/// The overrides that the members of a map from `from` on hold for the
/// keys below `key`.
pub open spec fn meta_members_found(members: Seq<Member>, from: int, key: Seq<char>) -> Overridden
    decreases members, members.len() - from,
{
    if 0 <= from < members.len() {
        over_then(
            meta_found(members[from].value, member_key(key, members[from].key@)),
            meta_members_found(members, from + 1, key),
        )
    } else {
        Ok(Seq::empty())
    }
}

/// The overrides that the elements of a list from `from` on hold for the
/// keys below `key`.
pub open spec fn meta_items_found(items: Seq<Json>, from: int, key: Seq<char>) -> Overridden
    decreases items, items.len() - from,
{
    if 0 <= from < items.len() {
        over_then(
            meta_found(items[from], element_key(key, from)),
            meta_items_found(items, from + 1, key),
        )
    } else {
        Ok(Seq::empty())
    }
}

/// Whether reading that has appended to `before` and come to `result` has
/// done what `read` says.
pub open spec fn over_done(
    read: Overridden,
    before: Seq<Override>,
    after: Seq<Override>,
    result: Result<(), UpstreamShapeError>,
) -> bool {
    match result {
        Ok(()) => read is Ok && override_texts(after) == override_texts(before) + read->Ok_0,
        Err(e) => read == Err::<Seq<OverrideText>, Seq<char>>(e.context@),
    }
}

/// Reads the overrides that a value of the metadata holds for the key
/// `key`.
pub fn walk_meta(value: &Json, key: &str, out: &mut Vec<Override>) -> (result: Result<
    (),
    UpstreamShapeError,
>)
    ensures
        over_done(meta_found(*value, key@), old(out)@, final(out)@, result),
    decreases weight(*value), 0int,
{
    let ghost before = out@;
    proof {
        lemma_object_weight(*value);
    }
    let members = match value {
        Json::Object(members) => members,
        _ => {
            return Err(fault("reading type of Meta"));
        },
    };
    let t = match value.member_place("t") {
        Some(t) => t,
        None => {
            return Err(fault("reading type of Meta"));
        },
    };
    proof {
        lemma_key_place(members@, "t"@, 0);
        lemma_key_place(members@, "c"@, 0);
    }
    let ty = match &members[t].value {
        Json::Text(ty) => ty.as_str(),
        _ => {
            return Err(fault("reading type of Meta"));
        },
    };
    let null = Json::Null;
    let content = member_of(value, "c", &null);
    let c = value.member_place("c");
    if str_equal(ty, "MetaInlines") {
        let mut text = String::new();
        match meta_inlines_to_string(content, &mut text) {
            Ok(()) => {
                assert(text@ =~= meta_inlines_text(*content)->Ok_0);
                let ghost said = MetaValueText::Text(text@);
                let ghost start = override_texts(out@);
                out.push(Override { key: String::from_str(key), value: MetaValue::Text(text) });
                assert(override_texts(out@) =~= start + seq![OverrideText { key: key@, value: said }]);
                Ok(())
            },
            Err(e) => Err(e),
        }
    } else if str_equal(ty, "MetaBlocks") {
        let mut text = String::new();
        match meta_blocks_to_string(content, &mut text) {
            Ok(()) => {
                assert(text@ =~= meta_blocks_text(*content)->Ok_0);
                let ghost said = MetaValueText::Text(text@);
                let ghost start = override_texts(out@);
                out.push(Override { key: String::from_str(key), value: MetaValue::Text(text) });
                assert(override_texts(out@) =~= start + seq![OverrideText { key: key@, value: said }]);
                Ok(())
            },
            Err(e) => Err(e),
        }
    } else if str_equal(ty, "MetaMap") {
        match c {
            Some(c) => match &members[c].value {
                Json::Object(inner) => walk_meta_members(inner, key, out),
                _ => Err(fault("reading map of MetaMap")),
            },
            None => Err(fault("reading map of MetaMap")),
        }
    } else if str_equal(ty, "MetaList") {
        match c {
            Some(c) => match &members[c].value {
                Json::List(items) => walk_meta_items(items, key, out),
                _ => Err(fault("reading array of MetaList")),
            },
            None => Err(fault("reading array of MetaList")),
        }
    } else if str_equal(ty, "MetaString") {
        match content.as_text() {
            Some(text) => {
                let ghost start = override_texts(out@);
                out.push(
                    Override {
                        key: String::from_str(key),
                        value: MetaValue::Text(String::from_str(text)),
                    },
                );
                assert(override_texts(out@) =~= start + seq![
                    OverrideText { key: key@, value: MetaValueText::Text(text@) },
                ]);
                Ok(())
            },
            None => Err(fault("reading value of MetaString")),
        }
    } else if str_equal(ty, "MetaBool") {
        match content {
            Json::Bool(b) => {
                let ghost start = override_texts(out@);
                out.push(Override { key: String::from_str(key), value: MetaValue::Flag(*b) });
                assert(override_texts(out@) =~= start + seq![
                    OverrideText { key: key@, value: MetaValueText::Flag(*b) },
                ]);
                Ok(())
            },
            _ => Err(fault("reading value of MetaBool")),
        }
    } else {
        Err(unknown("unsupported Meta type: ", ty))
    }
}

/// Reads the overrides that the members of a map hold for the keys below
/// `key`.
fn walk_meta_members(members: &Vec<Member>, key: &str, out: &mut Vec<Override>) -> (result: Result<
    (),
    UpstreamShapeError,
>)
    ensures
        over_done(meta_members_found(members@, 0, key@), old(out)@, final(out)@, result),
    decreases members_weight_of(members@), 1int,
{
    let ghost before = out@;
    let mut k: usize = 0;
    let ghost mut done: Seq<OverrideText> = Seq::empty();
    assert(override_texts(out@) =~= override_texts(before) + done);
    while k < members.len()
        invariant
            k <= members.len(),
            override_texts(out@) == override_texts(before) + done,
            meta_members_found(members@, 0, key@) == over_then(
                Ok(done),
                meta_members_found(members@, k as int, key@),
            ),
        decreases members.len() - k,
    {
        let mut sub = String::from_str(key);
        sub.append(".");
        sub.append(members[k].key.as_str());
        assert(sub@ =~= member_key(key@, members@[k as int].key@));
        let ghost here = meta_found(members@[k as int].value, sub@);
        proof {
            lemma_member_weight(members@, k as int);
        }
        match walk_meta(&members[k].value, sub.as_str(), out) {
            Ok(()) => {
                proof {
                    lemma_over_on(done, here, meta_members_found(members@, k + 1, key@));
                    assert(override_texts(out@) =~= override_texts(before) + (done + here->Ok_0));
                    done = done + here->Ok_0;
                }
            },
            Err(e) => {
                return Err(e);
            },
        }
        k += 1;
    }
    assert(done + Seq::<OverrideText>::empty() =~= done);
    Ok(())
}

/// Reads the overrides that the elements of a list hold for the keys below
/// `key`.
fn walk_meta_items(items: &Vec<Json>, key: &str, out: &mut Vec<Override>) -> (result: Result<
    (),
    UpstreamShapeError,
>)
    ensures
        over_done(meta_items_found(items@, 0, key@), old(out)@, final(out)@, result),
    decreases list_weight_of(items@), 1int,
{
    let ghost before = out@;
    let mut k: usize = 0;
    let ghost mut done: Seq<OverrideText> = Seq::empty();
    assert(override_texts(out@) =~= override_texts(before) + done);
    while k < items.len()
        invariant
            k <= items.len(),
            override_texts(out@) == override_texts(before) + done,
            meta_items_found(items@, 0, key@) == over_then(
                Ok(done),
                meta_items_found(items@, k as int, key@),
            ),
        decreases items.len() - k,
    {
        let mut sub = String::from_str(key);
        sub.append("[");
        push_decimal(&mut sub, k as u128);
        sub.append("]");
        assert(sub@ =~= element_key(key@, k as int));
        let ghost here = meta_found(items@[k as int], sub@);
        proof {
            lemma_item_weight(items@, k as int);
        }
        match walk_meta(&items[k], sub.as_str(), out) {
            Ok(()) => {
                proof {
                    lemma_over_on(done, here, meta_items_found(items@, k + 1, key@));
                    assert(override_texts(out@) =~= override_texts(before) + (done + here->Ok_0));
                    done = done + here->Ok_0;
                }
            },
            Err(e) => {
                return Err(e);
            },
        }
        k += 1;
    }
    assert(done + Seq::<OverrideText>::empty() =~= done);
    Ok(())
}

/// The overrides that the members of a map from `from` on hold, each for
/// the key that it stands under.
pub open spec fn top_members_found(members: Seq<Member>, from: int) -> Overridden
    decreases members.len() - from,
{
    if 0 <= from < members.len() {
        over_then(
            meta_found(members[from].value, members[from].key@),
            top_members_found(members, from + 1),
        )
    } else {
        Ok(Seq::empty())
    }
}

/// The overrides that one member of the metadata holds: under the key
/// `jlconfig` those of a map, under a key that starts with `jlconfig.`
/// those for the rest of the key, and under any other key none.
pub open spec fn config_member_found(member: Member) -> Overridden {
    if member.key@ == "jlconfig"@ {
        if text_member(member.value, "t"@) != Some("MetaMap"@) {
            Err("in Front Matter configuration, jlconfig must be a map!"@)
        } else {
            match member_or_null(member.value, "c"@) {
                Json::Object(inner) => top_members_found(inner@, 0),
                _ => Err("reading map of MetaMap"@),
            }
        }
    } else if "jlconfig."@.is_prefix_of(member.key@) {
        meta_found(member.value, member.key@.skip(9))
    } else {
        Ok(Seq::empty())
    }
}

/// The overrides that the members of the metadata from `from` on hold.
pub open spec fn config_members_found(members: Seq<Member>, from: int) -> Overridden
    decreases members.len() - from,
{
    if 0 <= from < members.len() {
        over_then(config_member_found(members[from]), config_members_found(members, from + 1))
    } else {
        Ok(Seq::empty())
    }
}

/// The overrides of the configuration that a document holds in its
/// metadata, which is its member `meta`.
pub open spec fn config_found(tree: Json) -> Overridden {
    match member_or_null(tree, "meta"@) {
        Json::Object(members) => config_members_found(members@, 0),
        _ => Err("reading document metadata"@),
    }
}

/// Reads the overrides that the members of the map under the key
/// `jlconfig` hold.
fn walk_top_members(members: &Vec<Member>, out: &mut Vec<Override>) -> (result: Result<
    (),
    UpstreamShapeError,
>)
    ensures
        over_done(top_members_found(members@, 0), old(out)@, final(out)@, result),
{
    let ghost before = out@;
    let mut k: usize = 0;
    let ghost mut done: Seq<OverrideText> = Seq::empty();
    assert(override_texts(out@) =~= override_texts(before) + done);
    while k < members.len()
        invariant
            k <= members.len(),
            override_texts(out@) == override_texts(before) + done,
            top_members_found(members@, 0) == over_then(
                Ok(done),
                top_members_found(members@, k as int),
            ),
        decreases members.len() - k,
    {
        let ghost here = meta_found(members@[k as int].value, members@[k as int].key@);
        match walk_meta(&members[k].value, members[k].key.as_str(), out) {
            Ok(()) => {
                proof {
                    lemma_over_on(done, here, top_members_found(members@, k + 1));
                    assert(override_texts(out@) =~= override_texts(before) + (done + here->Ok_0));
                    done = done + here->Ok_0;
                }
            },
            Err(e) => {
                return Err(e);
            },
        }
        k += 1;
    }
    assert(done + Seq::<OverrideText>::empty() =~= done);
    Ok(())
}

/// Reads the overrides that one member of the metadata holds.
fn walk_config_member(member: &Member, out: &mut Vec<Override>) -> (result: Result<
    (),
    UpstreamShapeError,
>)
    ensures
        over_done(config_member_found(*member), old(out)@, final(out)@, result),
{
    let ghost before = out@;
    let key = member.key.as_str();
    if str_equal(key, "jlconfig") {
        let is_map = match member.value.text_at("t") {
            Some(ty) => str_equal(ty, "MetaMap"),
            None => false,
        };
        if !is_map {
            return Err(fault("in Front Matter configuration, jlconfig must be a map!"));
        }
        let null = Json::Null;
        match member_of(&member.value, "c", &null) {
            Json::Object(inner) => walk_top_members(inner, out),
            _ => Err(fault("reading map of MetaMap")),
        }
    } else if has_prefix(key, "jlconfig.") {
        proof {
            reveal_strlit("jlconfig.");
        }
        let n = key.unicode_len();
        let rest = key.substring_char(9, n);
        assert(rest@ =~= key@.skip(9));
        walk_meta(&member.value, rest, out)
    } else {
        assert(override_texts(out@) =~= override_texts(before) + Seq::<OverrideText>::empty());
        Ok(())
    }
}

/// Reads the overrides of the configuration off the metadata of a
/// document, in the order of the metadata. A document whose metadata does
/// not have the shape that is expected of it is refused with the context of
/// the first fault.
pub fn config_overrides(tree: &Json) -> (result: Result<Vec<Override>, UpstreamShapeError>)
    ensures
        match result {
            Ok(found) => config_found(*tree) == Ok::<Seq<OverrideText>, Seq<char>>(
                override_texts(found@),
            ),
            Err(e) => config_found(*tree) == Err::<Seq<OverrideText>, Seq<char>>(e.context@),
        },
{
    let null = Json::Null;
    let members = match member_of(tree, "meta", &null) {
        Json::Object(members) => members,
        _ => {
            return Err(fault("reading document metadata"));
        },
    };
    let mut out: Vec<Override> = Vec::new();
    let mut k: usize = 0;
    let ghost mut done: Seq<OverrideText> = Seq::empty();
    assert(override_texts(out@) =~= done);
    while k < members.len()
        invariant
            k <= members.len(),
            member_or_null(*tree, "meta"@) == Json::Object(*members),
            override_texts(out@) == done,
            config_members_found(members@, 0) == over_then(
                Ok(done),
                config_members_found(members@, k as int),
            ),
        decreases members.len() - k,
    {
        let ghost here = config_member_found(members@[k as int]);
        match walk_config_member(&members[k], &mut out) {
            Ok(()) => {
                proof {
                    lemma_over_on(done, here, config_members_found(members@, k + 1));
                    done = done + here->Ok_0;
                }
            },
            Err(e) => {
                return Err(e);
            },
        }
        k += 1;
    }
    assert(done + Seq::<OverrideText>::empty() =~= done);
    Ok(out)
}

} // verus!
