//! The text of a rendered page: where each run of text stands and in which
//! font it is set.
//!
//! A renderer that keeps text as text writes an element `text` for a line,
//! with the place of the pen and the font, and elements `tspan` within it
//! that move the pen. The font is named by a class that the style sheet of
//! the page explains, or by attributes of the element. Numbers are kept as
//! the page writes them; what they come to is for whoever measures the
//! runs.

use vstd::prelude::*;
use crate::svgopt::rewrite::same_bytes;
use crate::svgopt::xml::{texts, Attribute, AttributeText};
use crate::text::push_bytes;

verus! {

/// How a run of text is set: where its pen starts, the family of its font
/// and its size, each as the page writes it.
#[derive(Debug, PartialEq, Eq)]
pub struct TextContext {
    pub x: Vec<u8>,
    pub y: Vec<u8>,
    pub family: Vec<u8>,
    pub size: Vec<u8>,
}

/// What a context says.
pub struct ContextText {
    pub x: Seq<u8>,
    pub y: Seq<u8>,
    pub family: Seq<u8>,
    pub size: Seq<u8>,
}

impl View for TextContext {
    type V = ContextText;

    open spec fn view(&self) -> ContextText {
        ContextText { x: self.x@, y: self.y@, family: self.family@, size: self.size@ }
    }
}

/// What a stack of contexts says.
pub open spec fn contexts(stack: Seq<TextContext>) -> Seq<ContextText> {
    Seq::new(stack.len(), |i: int| stack[i]@)
}

/// A class of text as the style sheet of a page explains it: its name, and
/// the family and the size of its font.
#[derive(Debug, PartialEq, Eq)]
pub struct FontClass {
    pub name: Vec<u8>,
    pub family: Vec<u8>,
    pub size: Vec<u8>,
}

/// Why the text of a page cannot be read.
#[derive(Clone, Copy, Debug, PartialEq, Eq)]
pub enum TextFault {
    /// An element `text` does not say where it stands.
    TextWithoutPlace,
    /// An element `text` names a class that the page does not explain.
    UnknownClass,
    /// An element `text` names neither a class nor a font.
    TextWithoutFont,
    /// An element `tspan` stands outside every element `text`.
    SpanOutsideText,
}

/// The name `text`.
pub open spec fn name_text() -> Seq<u8> {
    seq![0x74u8, 0x65u8, 0x78u8, 0x74u8]
}

/// The name `tspan`.
pub open spec fn name_tspan() -> Seq<u8> {
    seq![0x74u8, 0x73u8, 0x70u8, 0x61u8, 0x6eu8]
}

/// The name `x`.
pub open spec fn key_x() -> Seq<u8> {
    seq![0x78u8]
}

/// The name `y`.
pub open spec fn key_y() -> Seq<u8> {
    seq![0x79u8]
}

/// The name `class`.
pub open spec fn key_class() -> Seq<u8> {
    seq![0x63u8, 0x6cu8, 0x61u8, 0x73u8, 0x73u8]
}

/// The name `font-family`.
pub open spec fn key_family() -> Seq<u8> {
    seq![0x66u8, 0x6fu8, 0x6eu8, 0x74u8, 0x2du8, 0x66u8, 0x61u8, 0x6du8, 0x69u8, 0x6cu8, 0x79u8]
}

/// The name `font-size`.
pub open spec fn key_size() -> Seq<u8> {
    seq![0x66u8, 0x6fu8, 0x6eu8, 0x74u8, 0x2du8, 0x73u8, 0x69u8, 0x7au8, 0x65u8]
}

/// The value of the first attribute from the place `from` on that is named
/// `key`.
pub open spec fn value_from(attrs: Seq<AttributeText>, key: Seq<u8>, from: int) -> Option<Seq<u8>>
    decreases attrs.len() - from,
{
    if from < 0 || from >= attrs.len() {
        None
    } else if attrs[from].key == key {
        Some(attrs[from].value)
    } else {
        value_from(attrs, key, from + 1)
    }
}

/// The value of the first attribute named `key`.
pub open spec fn value_of(attrs: Seq<AttributeText>, key: Seq<u8>) -> Option<Seq<u8>> {
    value_from(attrs, key, 0)
}

/// The place of the last of the first `upto` classes that is named `name`:
/// where a class is explained again, what was said last holds.
pub open spec fn class_place(classes: Seq<FontClass>, name: Seq<u8>, upto: int) -> Option<int>
    decreases upto,
{
    if upto <= 0 || upto > classes.len() {
        None
    } else if classes[upto - 1].name@ == name {
        Some(upto - 1)
    } else {
        class_place(classes, name, upto - 1)
    }
}

/// The context that an element `text` with the attributes `attrs` sets. It
/// says where it stands by `x` and `y`. Its font is that of its class, if
/// it names one, and else the one that `font-family` and `font-size` name.
pub open spec fn text_context(attrs: Seq<AttributeText>, classes: Seq<FontClass>) -> Result<
    ContextText,
    TextFault,
> {
    let x = value_of(attrs, key_x());
    let y = value_of(attrs, key_y());
    let class = value_of(attrs, key_class());
    let family = value_of(attrs, key_family());
    let size = value_of(attrs, key_size());
    if x is None || y is None {
        Err(TextFault::TextWithoutPlace)
    } else if class is Some {
        match class_place(classes, class->Some_0, classes.len() as int) {
            Some(k) => Ok(
                ContextText {
                    x: x->Some_0,
                    y: y->Some_0,
                    family: classes[k].family@,
                    size: classes[k].size@,
                },
            ),
            None => Err(TextFault::UnknownClass),
        }
    } else if family is None || size is None {
        Err(TextFault::TextWithoutFont)
    } else {
        Ok(ContextText { x: x->Some_0, y: y->Some_0, family: family->Some_0, size: size->Some_0 })
    }
}

/// The context that an element `tspan` with the attributes `attrs` sets
/// within the context `outer`: the pen is where the element says, and else
/// where it was; the font stays.
pub open spec fn span_context(attrs: Seq<AttributeText>, outer: ContextText) -> ContextText {
    ContextText {
        x: match value_of(attrs, key_x()) {
            Some(x) => x,
            None => outer.x,
        },
        y: match value_of(attrs, key_y()) {
            Some(y) => y,
            None => outer.y,
        },
        family: outer.family,
        size: outer.size,
    }
}

/// The stack of contexts after the opening tag of an element named `name`
/// with the attributes `attrs`: an element `text` or `tspan` puts its
/// context on the stack, and any other leaves the stack as it is.
pub open spec fn opened(
    stack: Seq<ContextText>,
    name: Seq<u8>,
    attrs: Seq<AttributeText>,
    classes: Seq<FontClass>,
) -> Result<Seq<ContextText>, TextFault> {
    if name == name_text() {
        match text_context(attrs, classes) {
            Ok(context) => Ok(stack.push(context)),
            Err(fault) => Err(fault),
        }
    } else if name == name_tspan() {
        if stack.len() == 0 {
            Err(TextFault::SpanOutsideText)
        } else {
            Ok(stack.push(span_context(attrs, stack.last())))
        }
    } else {
        Ok(stack)
    }
}

/// The stack of contexts after the closing tag of an element named `name`:
/// an element `text` or `tspan` takes the last context off the stack, if
/// there is one.
pub open spec fn closed(stack: Seq<ContextText>, name: Seq<u8>) -> Seq<ContextText> {
    if (name == name_text() || name == name_tspan()) && stack.len() > 0 {
        stack.drop_last()
    } else {
        stack
    }
}

/// A copy of a run of bytes.
fn copy_of(bytes: &[u8]) -> (copy: Vec<u8>)
    ensures
        copy@ == bytes@,
{
    let mut copy: Vec<u8> = Vec::new();
    push_bytes(&mut copy, bytes);
    assert(copy@ =~= bytes@);
    copy
}

/// The place of the first attribute named `key`.
pub fn attribute_place(attrs: &Vec<Attribute>, key: &[u8]) -> (place: Option<usize>)
    ensures
        match place {
            Some(at) => at < attrs.len() && value_of(texts(attrs@), key@) == Some(
                attrs@[at as int].value@,
            ),
            None => value_of(texts(attrs@), key@) is None,
        },
{
    let mut i: usize = 0;
    while i < attrs.len()
        invariant
            i <= attrs.len(),
            value_of(texts(attrs@), key@) == value_from(texts(attrs@), key@, i as int),
        decreases attrs.len() - i,
    {
        assert(texts(attrs@)[i as int] == attrs@[i as int]@);
        if same_bytes(attrs[i].key.as_slice(), key) {
            return Some(i);
        }
        i += 1;
    }
    None
}

/// The place of the class named `name`, as it was explained last.
pub fn find_class(classes: &Vec<FontClass>, name: &[u8]) -> (place: Option<usize>)
    ensures
        match place {
            Some(k) => k < classes.len() && class_place(classes@, name@, classes.len() as int)
                == Some(k as int),
            None => class_place(classes@, name@, classes.len() as int) is None,
        },
{
    let mut i: usize = classes.len();
    while i > 0
        invariant
            i <= classes.len(),
            class_place(classes@, name@, classes.len() as int) == class_place(
                classes@,
                name@,
                i as int,
            ),
        decreases i,
    {
        if same_bytes(classes[i - 1].name.as_slice(), name) {
            return Some(i - 1);
        }
        i -= 1;
    }
    None
}

/// The context that an element `text` sets.
pub fn context_of_text(attrs: &Vec<Attribute>, classes: &Vec<FontClass>) -> (result: Result<
    TextContext,
    TextFault,
>)
    ensures
        match result {
            Ok(context) => text_context(texts(attrs@), classes@) == Ok::<ContextText, TextFault>(
                context@,
            ),
            Err(fault) => text_context(texts(attrs@), classes@) == Err::<ContextText, TextFault>(
                fault,
            ),
        },
{
    let x_key: [u8; 1] = [0x78];
    let y_key: [u8; 1] = [0x79];
    let class_key: [u8; 5] = [0x63, 0x6c, 0x61, 0x73, 0x73];
    let family_key: [u8; 11] = [0x66, 0x6f, 0x6e, 0x74, 0x2d, 0x66, 0x61, 0x6d, 0x69, 0x6c, 0x79];
    let size_key: [u8; 9] = [0x66, 0x6f, 0x6e, 0x74, 0x2d, 0x73, 0x69, 0x7a, 0x65];
    assert(x_key@ =~= key_x());
    assert(y_key@ =~= key_y());
    assert(class_key@ =~= key_class());
    assert(family_key@ =~= key_family());
    assert(size_key@ =~= key_size());
    let x = match attribute_place(attrs, x_key.as_slice()) {
        Some(x) => x,
        None => {
            return Err(TextFault::TextWithoutPlace);
        },
    };
    let y = match attribute_place(attrs, y_key.as_slice()) {
        Some(y) => y,
        None => {
            return Err(TextFault::TextWithoutPlace);
        },
    };
    match attribute_place(attrs, class_key.as_slice()) {
        Some(class) => match find_class(classes, attrs[class].value.as_slice()) {
            Some(k) => Ok(
                TextContext {
                    x: copy_of(attrs[x].value.as_slice()),
                    y: copy_of(attrs[y].value.as_slice()),
                    family: copy_of(classes[k].family.as_slice()),
                    size: copy_of(classes[k].size.as_slice()),
                },
            ),
            None => Err(TextFault::UnknownClass),
        },
        None => {
            let family = match attribute_place(attrs, family_key.as_slice()) {
                Some(family) => family,
                None => {
                    return Err(TextFault::TextWithoutFont);
                },
            };
            let size = match attribute_place(attrs, size_key.as_slice()) {
                Some(size) => size,
                None => {
                    return Err(TextFault::TextWithoutFont);
                },
            };
            Ok(
                TextContext {
                    x: copy_of(attrs[x].value.as_slice()),
                    y: copy_of(attrs[y].value.as_slice()),
                    family: copy_of(attrs[family].value.as_slice()),
                    size: copy_of(attrs[size].value.as_slice()),
                },
            )
        },
    }
}

/// The context that an element `tspan` sets within the context `outer`.
pub fn context_of_span(attrs: &Vec<Attribute>, outer: &TextContext) -> (context: TextContext)
    ensures
        context@ == span_context(texts(attrs@), outer@),
{
    let x_key: [u8; 1] = [0x78];
    let y_key: [u8; 1] = [0x79];
    assert(x_key@ =~= key_x());
    assert(y_key@ =~= key_y());
    let x = match attribute_place(attrs, x_key.as_slice()) {
        Some(x) => copy_of(attrs[x].value.as_slice()),
        None => copy_of(outer.x.as_slice()),
    };
    let y = match attribute_place(attrs, y_key.as_slice()) {
        Some(y) => copy_of(attrs[y].value.as_slice()),
        None => copy_of(outer.y.as_slice()),
    };
    TextContext {
        x,
        y,
        family: copy_of(outer.family.as_slice()),
        size: copy_of(outer.size.as_slice()),
    }
}

/// Takes in the opening tag of an element named `name` with the attributes
/// `attrs`. The run of text that follows is set as the last context on the
/// stack says. Where the element is at fault the stack stays as it is.
pub fn open_element(
    stack: &mut Vec<TextContext>,
    name: &[u8],
    attrs: &Vec<Attribute>,
    classes: &Vec<FontClass>,
) -> (result: Result<(), TextFault>)
    ensures
        match result {
            Ok(()) => opened(contexts(old(stack)@), name@, texts(attrs@), classes@) == Ok::<
                Seq<ContextText>,
                TextFault,
            >(contexts(final(stack)@)),
            Err(fault) => opened(contexts(old(stack)@), name@, texts(attrs@), classes@) == Err::<
                Seq<ContextText>,
                TextFault,
            >(fault) && final(stack)@ == old(stack)@,
        },
{
    let text: [u8; 4] = [0x74, 0x65, 0x78, 0x74];
    let tspan: [u8; 5] = [0x74, 0x73, 0x70, 0x61, 0x6e];
    assert(text@ =~= name_text());
    assert(tspan@ =~= name_tspan());
    let ghost before = contexts(stack@);
    if same_bytes(name, text.as_slice()) {
        match context_of_text(attrs, classes) {
            Ok(context) => {
                stack.push(context);
                assert(contexts(stack@) =~= before.push(context@));
                Ok(())
            },
            Err(fault) => Err(fault),
        }
    } else if same_bytes(name, tspan.as_slice()) {
        if stack.len() == 0 {
            return Err(TextFault::SpanOutsideText);
        }
        let context = context_of_span(attrs, &stack[stack.len() - 1]);
        assert(before.last() == stack@[stack.len() - 1]@);
        stack.push(context);
        assert(contexts(stack@) =~= before.push(context@));
        Ok(())
    } else {
        Ok(())
    }
}

/// Takes in the closing tag of an element named `name`.
pub fn close_element(stack: &mut Vec<TextContext>, name: &[u8])
    ensures
        contexts(final(stack)@) == closed(contexts(old(stack)@), name@),
{
    let text: [u8; 4] = [0x74, 0x65, 0x78, 0x74];
    let tspan: [u8; 5] = [0x74, 0x73, 0x70, 0x61, 0x6e];
    assert(text@ =~= name_text());
    assert(tspan@ =~= name_tspan());
    let ghost before = contexts(stack@);
    if (same_bytes(name, text.as_slice()) || same_bytes(name, tspan.as_slice())) && stack.len() > 0 {
        let _ = stack.pop();
        assert(contexts(stack@) =~= before.drop_last());
    }
}

} // verus!
