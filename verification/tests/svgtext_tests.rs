use justlatex::svgopt::xml::Attribute;
use justlatex::svgtext::{
    attribute_place, close_element, context_of_span, context_of_text, find_class, open_element,
    FontClass, TextContext, TextFault,
};

fn attr(key: &str, value: &str) -> Attribute {
    Attribute { key: key.as_bytes().to_vec(), value: value.as_bytes().to_vec() }
}

fn class(name: &str, family: &str, size: &str) -> FontClass {
    FontClass {
        name: name.as_bytes().to_vec(),
        family: family.as_bytes().to_vec(),
        size: size.as_bytes().to_vec(),
    }
}

fn context(x: &str, y: &str, family: &str, size: &str) -> TextContext {
    TextContext {
        x: x.as_bytes().to_vec(),
        y: y.as_bytes().to_vec(),
        family: family.as_bytes().to_vec(),
        size: size.as_bytes().to_vec(),
    }
}

fn classes() -> Vec<FontClass> {
    vec![class("f0", "cmr10", "9.96"), class("f1", "cmmi10", "9.96"), class("f0", "cmr12", "11.95")]
}

#[test]
fn first_attribute_of_a_name_counts() {
    let attrs = vec![attr("y", "1"), attr("x", "2"), attr("x", "3"), attr("", "4")];
    assert_eq!(attribute_place(&attrs, b"x"), Some(1));
    assert_eq!(attribute_place(&attrs, b"y"), Some(0));
    assert_eq!(attribute_place(&attrs, b""), Some(3));
    assert_eq!(attribute_place(&attrs, b"X"), None);
    assert_eq!(attribute_place(&vec![], b"x"), None);
}

#[test]
fn class_is_what_was_explained_last() {
    assert_eq!(find_class(&classes(), b"f0"), Some(2));
    assert_eq!(find_class(&classes(), b"f1"), Some(1));
    assert_eq!(find_class(&classes(), b"f2"), None);
    assert_eq!(find_class(&vec![], b"f0"), None);
}

#[test]
fn text_takes_its_font_from_its_class() {
    let attrs = vec![attr("class", "f0"), attr("x", "10.5"), attr("y", "-3"), attr("font-family", "other")];
    assert_eq!(context_of_text(&attrs, &classes()), Ok(context("10.5", "-3", "cmr12", "11.95")));
    let attrs = vec![attr("x", "1"), attr("y", "2"), attr("class", "f7"), attr("font-family", "a"), attr("font-size", "3")];
    assert_eq!(context_of_text(&attrs, &classes()), Err(TextFault::UnknownClass));
}

#[test]
fn text_without_class_names_its_font() {
    let attrs = vec![attr("x", "1"), attr("font-size", "8"), attr("y", "2"), attr("font-family", "cmsy10")];
    assert_eq!(context_of_text(&attrs, &classes()), Ok(context("1", "2", "cmsy10", "8")));
    let attrs = vec![attr("x", "1"), attr("y", "2"), attr("font-family", "cmsy10")];
    assert_eq!(context_of_text(&attrs, &classes()), Err(TextFault::TextWithoutFont));
    let attrs = vec![attr("x", "1"), attr("y", "2"), attr("font-size", "8")];
    assert_eq!(context_of_text(&attrs, &classes()), Err(TextFault::TextWithoutFont));
}

#[test]
fn text_must_say_where_it_stands() {
    let attrs = vec![attr("y", "2"), attr("class", "f7")];
    assert_eq!(context_of_text(&attrs, &classes()), Err(TextFault::TextWithoutPlace));
    let attrs = vec![attr("x", "2"), attr("class", "f0")];
    assert_eq!(context_of_text(&attrs, &classes()), Err(TextFault::TextWithoutPlace));
    assert_eq!(context_of_text(&vec![], &classes()), Err(TextFault::TextWithoutPlace));
}

#[test]
fn span_moves_the_pen_and_keeps_the_font() {
    let outer = context("1", "2", "cmr10", "9.96");
    assert_eq!(context_of_span(&vec![attr("x", "5")], &outer), context("5", "2", "cmr10", "9.96"));
    assert_eq!(context_of_span(&vec![attr("y", "6")], &outer), context("1", "6", "cmr10", "9.96"));
    assert_eq!(
        context_of_span(&vec![attr("class", "f1"), attr("font-size", "1")], &outer),
        context("1", "2", "cmr10", "9.96")
    );
}

#[test]
fn elements_open_and_close_contexts() {
    let mut stack: Vec<TextContext> = vec![];
    let text = vec![attr("x", "1"), attr("y", "2"), attr("class", "f1")];
    assert_eq!(open_element(&mut stack, b"g", &text, &classes()), Ok(()));
    assert_eq!(stack.len(), 0);
    assert_eq!(open_element(&mut stack, b"tspan", &vec![], &classes()), Err(TextFault::SpanOutsideText));
    assert_eq!(open_element(&mut stack, b"text", &text, &classes()), Ok(()));
    assert_eq!(open_element(&mut stack, b"tspan", &vec![attr("x", "7")], &classes()), Ok(()));
    assert_eq!(open_element(&mut stack, b"tspan", &vec![attr("y", "8")], &classes()), Ok(()));
    assert_eq!(
        stack,
        vec![
            context("1", "2", "cmmi10", "9.96"),
            context("7", "2", "cmmi10", "9.96"),
            context("7", "8", "cmmi10", "9.96")
        ]
    );
    assert_eq!(open_element(&mut stack, b"text", &vec![attr("x", "1")], &classes()), Err(TextFault::TextWithoutPlace));
    assert_eq!(stack.len(), 3);
    close_element(&mut stack, b"g");
    assert_eq!(stack.len(), 3);
    close_element(&mut stack, b"tspan");
    close_element(&mut stack, b"text");
    assert_eq!(stack, vec![context("1", "2", "cmmi10", "9.96")]);
    close_element(&mut stack, b"text");
    close_element(&mut stack, b"text");
    assert_eq!(stack.len(), 0);
}
