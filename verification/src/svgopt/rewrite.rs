//! Rewriting a page: every path is looked up by the number that its id
//! starts with, and stays, or gives way to a reference; the shared
//! definitions are gathered and written before the page ends.

use vstd::prelude::*;
use vstd::slice::slice_subrange;
use vstd::string::StringSliceAdditionalSpecFns;
use crate::svgopt::classify::{PathRecord, State};
use crate::svgopt::plan::{emissions_spec, Emission, Optimized};
use crate::text::{decimal, fixed3, format_decimal, format_fixed3, push_bytes};
use crate::svgopt::xml::{
    attributes_of, doctype_at, event_text, has_nameless_doctype, is_reader_blank,
    nameless_doctype_at, next_event, open_reader, page_event, page_place, position, reader_page,
    reader_reads, tag_of, texts, Attribute, AttributeText, EventText, Tag, TagText,
};

verus! {

/// The byte that ends the number at the start of the id of a path.
pub const DELIMITER: u8 = 0x7c;

/// The bytes of an ASCII text.
pub open spec fn bytes_of(text: Seq<char>) -> Seq<u8> {
    vstd::utf8::encode_utf8(text)
}

/// An attribute as it is written: a blank, the name, `="`, the value and
/// `"`.
pub open spec fn attribute_text(a: AttributeText) -> Seq<u8> {
    seq![0x20u8] + a.key + seq![0x3du8, 0x22u8] + a.value + seq![0x22u8]
}

/// The attributes of an element as they are written, one after the other.
pub open spec fn attributes_text(attrs: Seq<AttributeText>) -> Seq<u8>
    decreases attrs.len(),
{
    if attrs.len() == 0 {
        Seq::empty()
    } else {
        attributes_text(attrs.drop_last()) + attribute_text(attrs.last())
    }
}

/// An opening tag: `<`, the name, the attributes and `>`.
pub open spec fn open_text(name: Seq<u8>, attrs: Seq<AttributeText>) -> Seq<u8> {
    seq![0x3cu8] + name + attributes_text(attrs) + seq![0x3eu8]
}

/// The tag of an element without content: `<`, the name, the attributes
/// and `/>`.
pub open spec fn empty_text(name: Seq<u8>, attrs: Seq<AttributeText>) -> Seq<u8> {
    seq![0x3cu8] + name + attributes_text(attrs) + seq![0x2fu8, 0x3eu8]
}

/// A closing tag: `</`, the name and `>`.
pub open spec fn close_text(name: Seq<u8>) -> Seq<u8> {
    seq![0x3cu8, 0x2fu8] + name + seq![0x3eu8]
}

/// The name `path`.
pub open spec fn name_path() -> Seq<u8> {
    seq![0x70u8, 0x61u8, 0x74u8, 0x68u8]
}

/// The name `use`.
pub open spec fn name_use() -> Seq<u8> {
    seq![0x75u8, 0x73u8, 0x65u8]
}

/// The name `svg`.
pub open spec fn name_svg() -> Seq<u8> {
    seq![0x73u8, 0x76u8, 0x67u8]
}

/// The name `defs`.
pub open spec fn name_defs() -> Seq<u8> {
    seq![0x64u8, 0x65u8, 0x66u8, 0x73u8]
}

/// The name `g`.
pub open spec fn name_g() -> Seq<u8> {
    seq![0x67u8]
}

/// The name `id`.
pub open spec fn name_id() -> Seq<u8> {
    seq![0x69u8, 0x64u8]
}

/// The name `x`.
pub open spec fn name_x() -> Seq<u8> {
    seq![0x78u8]
}

/// The name `y`.
pub open spec fn name_y() -> Seq<u8> {
    seq![0x79u8]
}

/// The name `href`.
pub open spec fn name_href() -> Seq<u8> {
    seq![0x68u8, 0x72u8, 0x65u8, 0x66u8]
}

/// What the id of every shared definition starts with: two letters
/// outside ASCII, each of three bytes, that no id of a rendered page
/// starts with.
pub open spec fn definition_prefix() -> Seq<u8> {
    seq![0xe2u8, 0xb1u8, 0xbcu8, 0xe2u8, 0x82u8, 0x97u8]
}

/// The id of the shared definition of the path numbered `number`.
pub open spec fn definition_id(number: usize) -> Seq<u8> {
    definition_prefix() + bytes_of(decimal(number as nat))
}

/// Whether two runs of bytes are the same.
pub fn same_bytes(a: &[u8], b: &[u8]) -> (same: bool)
    ensures
        same == (a@ == b@),
{
    if a.len() != b.len() {
        return false;
    }
    let mut i: usize = 0;
    while i < a.len()
        invariant
            i <= a.len(),
            a.len() == b.len(),
            forall|k: int| 0 <= k < i ==> a@[k] == b@[k],
        decreases a.len() - i,
    {
        if a[i] != b[i] {
            return false;
        }
        i += 1;
    }
    assert(a@ =~= b@);
    true
}

/// Appends the attributes as they are written.
fn push_attributes(out: &mut Vec<u8>, attrs: &Vec<Attribute>)
    ensures
        final(out)@ == old(out)@ + attributes_text(texts(attrs@)),
{
    let mut i: usize = 0;
    assert(texts(attrs@).take(0) =~= Seq::<AttributeText>::empty());
    while i < attrs.len()
        invariant
            i <= attrs.len(),
            out@ == old(out)@ + attributes_text(texts(attrs@).take(i as int)),
        decreases attrs.len() - i,
    {
        let ghost before = out@;
        assert(texts(attrs@).take(i + 1).drop_last() =~= texts(attrs@).take(i as int));
        assert(texts(attrs@).take(i + 1).last() == attrs@[i as int]@);
        out.push(0x20);
        push_bytes(out, attrs[i].key.as_slice());
        out.push(0x3d);
        out.push(0x22);
        push_bytes(out, attrs[i].value.as_slice());
        out.push(0x22);
        assert(out@ =~= before + attribute_text(attrs@[i as int]@));
        i += 1;
    }
    assert(texts(attrs@).take(i as int) =~= texts(attrs@));
}

/// Appends an opening tag.
pub fn push_open(out: &mut Vec<u8>, name: &[u8], attrs: &Vec<Attribute>)
    ensures
        final(out)@ == old(out)@ + open_text(name@, texts(attrs@)),
{
    out.push(0x3c);
    push_bytes(out, name);
    push_attributes(out, attrs);
    out.push(0x3e);
    assert(out@ =~= old(out)@ + open_text(name@, texts(attrs@)));
}

/// Appends the tag of an element without content.
pub fn push_empty(out: &mut Vec<u8>, name: &[u8], attrs: &Vec<Attribute>)
    ensures
        final(out)@ == old(out)@ + empty_text(name@, texts(attrs@)),
{
    out.push(0x3c);
    push_bytes(out, name);
    push_attributes(out, attrs);
    out.push(0x2f);
    out.push(0x3e);
    assert(out@ =~= old(out)@ + empty_text(name@, texts(attrs@)));
}

/// Appends a closing tag.
pub fn push_close(out: &mut Vec<u8>, name: &[u8])
    ensures
        final(out)@ == old(out)@ + close_text(name@),
{
    out.push(0x3c);
    out.push(0x2f);
    push_bytes(out, name);
    out.push(0x3e);
    assert(out@ =~= old(out)@ + close_text(name@));
}

/// A decimal digit.
pub open spec fn is_digit(b: u8) -> bool {
    0x30 <= b <= 0x39
}

/// The number that a run of decimal digits stands for.
pub open spec fn digits_value(digits: Seq<u8>) -> nat
    decreases digits.len(),
{
    if digits.len() == 0 {
        0
    } else {
        digits_value(digits.drop_last()) * 10 + (digits.last() - 0x30) as nat
    }
}

/// The id starts with a number: `at` is the place of its first delimiter,
/// and what stands before it is a run of one or more decimal digits.
pub open spec fn numbered(id: Seq<u8>, at: int) -> bool {
    &&& 0 < at < id.len()
    &&& id[at] == DELIMITER
    &&& forall|k: int| 0 <= k < at ==> is_digit(#[trigger] id[k])
}

/// A longer run of digits does not stand for a smaller number.
proof fn lemma_digits_value_grows(digits: Seq<u8>, n: int)
    requires
        0 <= n <= digits.len(),
        forall|k: int| 0 <= k < digits.len() ==> is_digit(#[trigger] digits[k]),
    ensures
        digits_value(digits.take(n)) <= digits_value(digits),
    decreases digits.len() - n,
{
    if n < digits.len() {
        assert(digits.take(n + 1).drop_last() =~= digits.take(n));
        lemma_digits_value_grows(digits, n + 1);
    } else {
        assert(digits.take(n) =~= digits);
    }
}

/// Reads the number that the id of a path starts with. Returns the number
/// and the place after the delimiter, or `None` if the id does not start
/// with a number and a delimiter or the number is too large.
pub fn parse_path_id(id: &[u8]) -> (parsed: Option<(usize, usize)>)
    ensures
        match parsed {
            Some((number, rest)) => numbered(id@, rest - 1) && number == digits_value(
                id@.take(rest - 1),
            ),
            None => forall|at: int|
                !(numbered(id@, at) && digits_value(#[trigger] id@.take(at)) <= usize::MAX),
        },
{
    let mut value: usize = 0;
    let mut i: usize = 0;
    while i < id.len()
        invariant
            i <= id.len(),
            forall|k: int| 0 <= k < i ==> is_digit(#[trigger] id@[k]),
            value == digits_value(id@.take(i as int)),
        decreases id.len() - i,
    {
        let b = id[i];
        if b == DELIMITER {
            if i == 0 {
                assert forall|at: int| !numbered(id@, at) by {
                    if numbered(id@, at) {
                        assert(is_digit(id@[0]));
                    }
                }
                return None;
            }
            return Some((value, i + 1));
        }
        if b < 0x30 || b > 0x39 {
            assert forall|at: int| !numbered(id@, at) by {
                if numbered(id@, at) {
                    if at > i {
                        assert(is_digit(id@[i as int]));
                    } else {
                        assert(is_digit(id@[at]));
                    }
                }
            }
            return None;
        }
        let digit: usize = (b - 0x30) as usize;
        assert(id@.take(i + 1).drop_last() =~= id@.take(i as int));
        if value > (usize::MAX - digit) / 10 {
            assert(digits_value(id@.take(i + 1)) > usize::MAX);
            assert forall|at: int|
                !(numbered(id@, at) && digits_value(#[trigger] id@.take(at)) <= usize::MAX) by {
                if numbered(id@, at) {
                    if at <= i {
                        assert(is_digit(id@[at]));
                    } else {
                        let run = id@.take(at);
                        assert(run.take(i + 1) =~= id@.take(i + 1));
                        assert forall|k: int| 0 <= k < run.len() implies is_digit(
                            #[trigger] run[k],
                        ) by {
                            assert(is_digit(id@[k]));
                        }
                        lemma_digits_value_grows(run, i + 1);
                    }
                }
            }
            return None;
        }
        value = value * 10 + digit;
        i += 1;
    }
    assert forall|at: int| !numbered(id@, at) by {
        if numbered(id@, at) {
            assert(is_digit(id@[at]));
        }
    }
    None
}

/// The decimal digits of `n` as bytes, without leading zeros.
pub open spec fn digit_bytes(n: nat) -> Seq<u8>
    decreases n,
{
    if n < 10 {
        seq![(0x30 + n) as u8]
    } else {
        digit_bytes(n / 10).push((0x30 + n % 10) as u8)
    }
}

/// The digits of a number are digits, and stand for the number.
pub proof fn lemma_digit_bytes(n: nat)
    ensures
        digit_bytes(n).len() > 0,
        forall|k: int| 0 <= k < digit_bytes(n).len() ==> is_digit(#[trigger] digit_bytes(n)[k]),
        digits_value(digit_bytes(n)) == n,
    decreases n,
{
    if n < 10 {
        let one = seq![(0x30 + n) as u8];
        assert(one.drop_last() =~= Seq::<u8>::empty());
        assert(digits_value(one.drop_last()) == 0);
    } else {
        lemma_digit_bytes(n / 10);
        assert(digit_bytes(n).drop_last() =~= digit_bytes(n / 10));
    }
}

/// An id with the number `number` and the delimiter before it.
pub open spec fn numbered_id_spec(number: usize, id: Seq<u8>) -> Seq<u8> {
    digit_bytes(number as nat) + seq![DELIMITER] + id
}

/// Appends the decimal digits of `n`.
fn push_number(out: &mut Vec<u8>, n: usize)
    ensures
        final(out)@ == old(out)@ + digit_bytes(n as nat),
    decreases n,
{
    if n >= 10 {
        push_number(out, n / 10);
    }
    out.push(0x30 + (n % 10) as u8);
    assert(out@ =~= old(out)@ + digit_bytes(n as nat));
}

/// Puts the number of a path and the delimiter before its id. This is the
/// id that [`parse_path_id`] reads the number off again: the delimiter
/// stands behind the digits, and the digits stand for `number`.
pub fn numbered_id(number: usize, id: &[u8]) -> (out: Vec<u8>)
    ensures
        out@ == numbered_id_spec(number, id@),
        numbered(out@, digit_bytes(number as nat).len() as int),
        digits_value(out@.take(digit_bytes(number as nat).len() as int)) == number,
        out@.skip((digit_bytes(number as nat).len() + 1) as int) == id@,
{
    let mut out: Vec<u8> = Vec::new();
    push_number(&mut out, number);
    out.push(DELIMITER);
    push_bytes(&mut out, id);
    proof {
        let digits = digit_bytes(number as nat);
        lemma_digit_bytes(number as nat);
        assert(out@ =~= numbered_id_spec(number, id@));
        assert(out@.take(digits.len() as int) =~= digits);
        assert(out@.skip((digits.len() + 1) as int) =~= id@);
        assert forall|k: int| 0 <= k < digits.len() implies is_digit(#[trigger] out@[k]) by {
            assert(out@[k] == digits[k]);
        }
    }
    out
}

/// Why a page could not be rewritten.
#[derive(Debug)]
pub enum RewriteError {
    /// The page declares a document type without a name.
    NamelessDoctype,
    /// The page is not well-formed markup.
    Malformed(quick_xml::Error),
    /// A path has no id.
    PathWithoutId,
    /// The id of a path does not start with a number and the delimiter.
    PathNotNumbered,
    /// The number of a path is that of no path that was looked at.
    UnknownPath(usize),
    /// The reader lost track of where in the page it is.
    LostPosition,
    /// The reader hands out more events than the page has bytes.
    TooManyEvents,
}

/// Why a page could not be rewritten, without what the reader said of it.
pub enum Fault {
    NamelessDoctype,
    Malformed,
    PathWithoutId,
    PathNotNumbered,
    UnknownPath(usize),
    LostPosition,
    TooManyEvents,
}

/// The fault that an error stands for.
pub open spec fn fault_of(e: RewriteError) -> Fault {
    match e {
        RewriteError::NamelessDoctype => Fault::NamelessDoctype,
        RewriteError::Malformed(_) => Fault::Malformed,
        RewriteError::PathWithoutId => Fault::PathWithoutId,
        RewriteError::PathNotNumbered => Fault::PathNotNumbered,
        RewriteError::UnknownPath(number) => Fault::UnknownPath(number),
        RewriteError::LostPosition => Fault::LostPosition,
        RewriteError::TooManyEvents => Fault::TooManyEvents,
    }
}

/// A path that has moved into the block of shared definitions: its number
/// and its attributes.
#[derive(Debug, PartialEq, Eq)]
pub struct Definition {
    pub number: usize,
    pub attrs: Vec<Attribute>,
}

/// What a shared definition says.
pub struct DefinitionText {
    pub number: usize,
    pub attrs: Seq<AttributeText>,
}

impl View for Definition {
    type V = DefinitionText;

    open spec fn view(&self) -> DefinitionText {
        DefinitionText { number: self.number, attrs: texts(self.attrs@) }
    }
}

/// What a list of shared definitions says.
pub open spec fn definition_texts(defs: Seq<Definition>) -> Seq<DefinitionText> {
    Seq::new(defs.len(), |i: int| defs[i]@)
}

/// The attributes of a reference to the shared definition of the path
/// numbered `target`, moved by `dx` and `dy`: `x` and `y` with three
/// decimals, and `href` with `#` and the id of the definition.
pub open spec fn reference_attributes_spec(target: usize, dx: i64, dy: i64) -> Seq<AttributeText> {
    seq![
        AttributeText { key: name_x(), value: bytes_of(fixed3(dx as int)) },
        AttributeText { key: name_y(), value: bytes_of(fixed3(dy as int)) },
        AttributeText { key: name_href(), value: seq![0x23u8] + definition_id(target) },
    ]
}

/// What is written in the place of a path with the attributes `attrs`.
pub open spec fn in_place_text(e: Emission, attrs: Seq<AttributeText>) -> Seq<u8> {
    match e {
        Emission::Unchanged => empty_text(name_path(), attrs),
        Emission::Reference { target, dx, dy } => empty_text(
            name_use(),
            reference_attributes_spec(target, dx, dy),
        ),
    }
}

/// A shared definition as it is written: a group that carries the id of
/// the definition, and in it the path.
pub open spec fn definition_text(d: DefinitionText) -> Seq<u8> {
    open_text(name_g(), seq![AttributeText { key: name_id(), value: definition_id(d.number) }])
        + empty_text(name_path(), d.attrs) + close_text(name_g())
}

/// The shared definitions as they are written, one after the other.
pub open spec fn definitions_text(defs: Seq<DefinitionText>) -> Seq<u8>
    decreases defs.len(),
{
    if defs.len() == 0 {
        Seq::empty()
    } else {
        definitions_text(defs.drop_last()) + definition_text(defs.last())
    }
}

/// The block of shared definitions as it is written.
pub open spec fn definitions_block(defs: Seq<DefinitionText>) -> Seq<u8> {
    open_text(name_defs(), Seq::empty()) + definitions_text(defs) + close_text(name_defs())
}

/// The attribute at `at` is the first with the name `key`.
pub open spec fn is_first_key(attrs: Seq<AttributeText>, key: Seq<u8>, at: int) -> bool {
    &&& 0 <= at < attrs.len()
    &&& attrs[at].key == key
    &&& forall|k: int| 0 <= k < at ==> (#[trigger] attrs[k]).key != key
}

/// No attribute has the name `key`.
pub open spec fn lacks_key(attrs: Seq<AttributeText>, key: Seq<u8>) -> bool {
    forall|k: int| 0 <= k < attrs.len() ==> (#[trigger] attrs[k]).key != key
}

/// The attributes with the first `rest` bytes taken off the value of the
/// attribute at `at`.
pub open spec fn stripped(attrs: Seq<AttributeText>, at: int, rest: int) -> Seq<AttributeText> {
    attrs.update(at, AttributeText { key: attrs[at].key, value: attrs[at].value.skip(rest) })
}

/// The place of the first attribute with the name `key`.
pub fn find_attribute(attrs: &Vec<Attribute>, key: &[u8]) -> (found: Option<usize>)
    ensures
        match found {
            Some(at) => is_first_key(texts(attrs@), key@, at as int),
            None => lacks_key(texts(attrs@), key@),
        },
{
    let mut i: usize = 0;
    while i < attrs.len()
        invariant
            i <= attrs.len(),
            forall|k: int| 0 <= k < i ==> (#[trigger] texts(attrs@)[k]).key != key@,
        decreases attrs.len() - i,
    {
        if same_bytes(attrs[i].key.as_slice(), key) {
            return Some(i);
        }
        i += 1;
    }
    None
}

/// Takes the first `rest` bytes off the value of the attribute at `at`.
fn strip_value(attrs: &mut Vec<Attribute>, at: usize, rest: usize)
    requires
        at < old(attrs).len(),
        rest <= old(attrs)[at as int].value@.len(),
    ensures
        texts(final(attrs)@) == stripped(texts(old(attrs)@), at as int, rest as int),
{
    let mut value: Vec<u8> = Vec::new();
    let whole = attrs[at].value.as_slice();
    push_bytes(&mut value, slice_subrange(whole, rest, whole.len()));
    assert(value@ =~= old(attrs)[at as int].value@.skip(rest as int));
    attrs[at].value = value;
    assert(texts(attrs@) =~= stripped(texts(old(attrs)@), at as int, rest as int));
}

/// The attributes of a reference.
fn reference_attributes(target: usize, dx: i64, dy: i64) -> (attrs: Vec<Attribute>)
    ensures
        texts(attrs@) == reference_attributes_spec(target, dx, dy),
{
    let x_name: [u8; 1] = [0x78];
    let y_name: [u8; 1] = [0x79];
    let href_name: [u8; 4] = [0x68, 0x72, 0x65, 0x66];
    let mut x_key: Vec<u8> = Vec::new();
    push_bytes(&mut x_key, x_name.as_slice());
    let mut y_key: Vec<u8> = Vec::new();
    push_bytes(&mut y_key, y_name.as_slice());
    let mut href_key: Vec<u8> = Vec::new();
    push_bytes(&mut href_key, href_name.as_slice());
    let mut x_value: Vec<u8> = Vec::new();
    push_bytes(&mut x_value, format_fixed3(dx).as_str().as_bytes());
    let mut y_value: Vec<u8> = Vec::new();
    push_bytes(&mut y_value, format_fixed3(dy).as_str().as_bytes());
    let mut href_value: Vec<u8> = Vec::new();
    href_value.push(0x23);
    push_definition_id(&mut href_value, target);
    let mut attrs: Vec<Attribute> = Vec::new();
    attrs.push(Attribute { key: x_key, value: x_value });
    attrs.push(Attribute { key: y_key, value: y_value });
    attrs.push(Attribute { key: href_key, value: href_value });
    assert(x_name@ =~= name_x());
    assert(y_name@ =~= name_y());
    assert(href_name@ =~= name_href());
    assert(texts(attrs@) =~= reference_attributes_spec(target, dx, dy));
    attrs
}

/// Appends the id of a shared definition.
fn push_definition_id(out: &mut Vec<u8>, number: usize)
    ensures
        final(out)@ == old(out)@ + definition_id(number),
{
    let prefix: [u8; 6] = [0xe2, 0xb1, 0xbc, 0xe2, 0x82, 0x97];
    assert(prefix@ =~= definition_prefix());
    push_bytes(out, prefix.as_slice());
    push_bytes(out, format_decimal(number).as_str().as_bytes());
    assert(out@ =~= old(out)@ + definition_id(number));
}

/// What rewriting a path with the attributes `attrs` comes to: `out` grows
/// by what stands in its place, and `defs` by the path itself if it is a
/// shared definition. The number of the path is read off its id, and is
/// taken off the id in what is written.
pub open spec fn path_rewritten(
    plan: Seq<PathRecord>,
    attrs: Seq<AttributeText>,
    out_before: Seq<u8>,
    out_after: Seq<u8>,
    defs_before: Seq<DefinitionText>,
    defs_after: Seq<DefinitionText>,
) -> bool {
    exists|at: int, rest: int|
        {
            let number = digits_value(attrs[at].value.take(rest - 1));
            let kept = stripped(attrs, at, rest);
            &&& is_first_key(attrs, name_id(), at)
            &&& #[trigger] numbered(attrs[at].value, rest - 1)
            &&& number < plan.len()
            &&& number <= usize::MAX
            &&& out_after == out_before + in_place_text(emissions_spec(plan)[number as int], kept)
            &&& defs_after == if plan[number as int].state == State::Referred {
                defs_before.push(DefinitionText { number: number as usize, attrs: kept })
            } else {
                defs_before
            }
        }
}

/// What rewriting a path comes to, failures included: a path without an
/// id, with an id that does not start with a number, or with the number of
/// no path that was looked at is refused, and nothing is written for it.
pub open spec fn path_outcome(
    plan: Seq<PathRecord>,
    attrs: Seq<AttributeText>,
    out_before: Seq<u8>,
    out_after: Seq<u8>,
    defs_before: Seq<DefinitionText>,
    defs_after: Seq<DefinitionText>,
    result: Result<(), RewriteError>,
) -> bool {
    match result {
        Ok(()) => path_rewritten(plan, attrs, out_before, out_after, defs_before, defs_after),
        Err(e) => {
            &&& out_after == out_before
            &&& defs_after == defs_before
            &&& match e {
                RewriteError::PathWithoutId => lacks_key(attrs, name_id()),
                RewriteError::PathNotNumbered => exists|at: int|
                    is_first_key(attrs, name_id(), at) && forall|d: int|
                        !(numbered(attrs[at].value, d) && digits_value(
                            #[trigger] attrs[at].value.take(d),
                        ) <= usize::MAX),
                RewriteError::UnknownPath(number) => number >= plan.len() && exists|
                    at: int,
                    rest: int,
                |
                    is_first_key(attrs, name_id(), at) && #[trigger] numbered(
                        attrs[at].value,
                        rest - 1,
                    ) && number == digits_value(attrs[at].value.take(rest - 1)),
                _ => false,
            }
        },
    }
}

/// Rewrites one path: writes what stands in its place, and keeps it for
/// the block of shared definitions if it is one.
pub fn rewrite_path(
    plan: &Optimized,
    attrs: Vec<Attribute>,
    out: &mut Vec<u8>,
    defs: &mut Vec<Definition>,
) -> (result: Result<(), RewriteError>)
    ensures
        path_outcome(
            plan@,
            texts(attrs@),
            old(out)@,
            final(out)@,
            definition_texts(old(defs)@),
            definition_texts(final(defs)@),
            result,
        ),
        result is Err ==> final(defs)@ == old(defs)@,
{
    let id_name: [u8; 2] = [0x69, 0x64];
    assert(id_name@ =~= name_id());
    let at = match find_attribute(&attrs, id_name.as_slice()) {
        Some(at) => at,
        None => {
            return Err(RewriteError::PathWithoutId);
        },
    };
    let (number, rest) = match parse_path_id(attrs[at].value.as_slice()) {
        Some(parsed) => parsed,
        None => {
            assert(is_first_key(texts(attrs@), name_id(), at as int));
            return Err(RewriteError::PathNotNumbered);
        },
    };
    assert(numbered(texts(attrs@)[at as int].value, rest - 1));
    let records = plan.records();
    let emissions = plan.emissions();
    if number >= records.len() {
        assert(is_first_key(texts(attrs@), name_id(), at as int));
        return Err(RewriteError::UnknownPath(number));
    }
    let mut kept = attrs;
    strip_value(&mut kept, at, rest);
    let ghost kept_text = texts(kept@);
    let ghost defs_before = definition_texts(defs@);
    match emissions[number] {
        Emission::Unchanged => {
            let name: [u8; 4] = [0x70, 0x61, 0x74, 0x68];
            assert(name@ =~= name_path());
            push_empty(out, name.as_slice(), &kept);
        },
        Emission::Reference { target, dx, dy } => {
            let name: [u8; 3] = [0x75, 0x73, 0x65];
            assert(name@ =~= name_use());
            let reference = reference_attributes(target, dx, dy);
            push_empty(out, name.as_slice(), &reference);
        },
    }
    if records[number].state == State::Referred {
        defs.push(Definition { number, attrs: kept });
        assert(definition_texts(defs@) =~= defs_before.push(
            DefinitionText { number, attrs: kept_text },
        ));
    }
    assert(is_first_key(texts(attrs@), name_id(), at as int));
    Ok(())
}

/// Writes the block of shared definitions and empties the list.
pub fn write_definitions(out: &mut Vec<u8>, defs: &mut Vec<Definition>)
    ensures
        final(out)@ == old(out)@ + definitions_block(definition_texts(old(defs)@)),
        final(defs)@.len() == 0,
{
    let defs_name: [u8; 4] = [0x64, 0x65, 0x66, 0x73];
    let g_name: [u8; 1] = [0x67];
    let path_name: [u8; 4] = [0x70, 0x61, 0x74, 0x68];
    let id_name: [u8; 2] = [0x69, 0x64];
    assert(defs_name@ =~= name_defs());
    assert(g_name@ =~= name_g());
    assert(path_name@ =~= name_path());
    assert(id_name@ =~= name_id());
    let none: Vec<Attribute> = Vec::new();
    assert(texts(none@) =~= Seq::<AttributeText>::empty());
    push_open(out, defs_name.as_slice(), &none);
    let ghost opened = out@;
    let ghost all = definition_texts(defs@);
    let mut i: usize = 0;
    assert(all.take(0) =~= Seq::<DefinitionText>::empty());
    while i < defs.len()
        invariant
            i <= defs.len(),
            all == definition_texts(defs@),
            g_name@ == name_g(),
            path_name@ == name_path(),
            id_name@ == name_id(),
            out@ == opened + definitions_text(all.take(i as int)),
        decreases defs.len() - i,
    {
        let ghost before = out@;
        assert(all.take(i + 1).drop_last() =~= all.take(i as int));
        assert(all.take(i + 1).last() == defs@[i as int]@);
        let mut key: Vec<u8> = Vec::new();
        push_bytes(&mut key, id_name.as_slice());
        let mut value: Vec<u8> = Vec::new();
        push_definition_id(&mut value, defs[i].number);
        let mut group: Vec<Attribute> = Vec::new();
        group.push(Attribute { key, value });
        assert(texts(group@) =~= seq![
            AttributeText { key: name_id(), value: definition_id(defs@[i as int].number) },
        ]);
        push_open(out, g_name.as_slice(), &group);
        push_empty(out, path_name.as_slice(), &defs[i].attrs);
        push_close(out, g_name.as_slice());
        assert(out@ =~= before + definition_text(defs@[i as int]@));
        i += 1;
    }
    assert(all.take(i as int) =~= all);
    push_close(out, defs_name.as_slice());
    defs.clear();
    assert(out@ =~= old(out)@ + definitions_block(all));
}

/// The tag of a path: an element without content named `path`.
pub open spec fn is_path_tag(tag: TagText) -> bool {
    tag matches TagText::Empty(name) && name == name_path()
}

/// The closing tag of `svg`.
pub open spec fn is_page_end(tag: TagText) -> bool {
    tag matches TagText::End(name) && name == name_svg()
}

/// The opening tag of `svg`.
pub open spec fn is_page_start(tag: TagText) -> bool {
    tag matches TagText::Start(name) && name == name_svg()
}

/// Whether the tag is that of a path.
pub fn tag_is_path(tag: &Tag) -> (yes: bool)
    ensures
        yes == is_path_tag(tag@),
{
    match tag {
        Tag::Empty(name) => {
            let path: [u8; 4] = [0x70, 0x61, 0x74, 0x68];
            assert(path@ =~= name_path());
            same_bytes(name.as_slice(), path.as_slice())
        },
        _ => false,
    }
}

/// What has been written, what is kept for the block of shared
/// definitions, and how many `svg` elements are open.
pub struct Written {
    pub out: Seq<u8>,
    pub defs: Seq<DefinitionText>,
    pub depth: usize,
}

/// What has been written, and what the list of definitions says.
pub open spec fn written(out: Seq<u8>, defs: Seq<Definition>, depth: usize) -> Written {
    Written { out, defs: definition_texts(defs), depth }
}

/// Nothing written yet.
pub open spec fn nothing_written() -> Written {
    Written { out: Seq::empty(), defs: Seq::empty(), depth: 0 }
}

/// The place of the attribute `id` of a path.
pub open spec fn id_place(attrs: Seq<AttributeText>) -> int {
    choose|at: int| is_first_key(attrs, name_id(), at)
}

/// The place of the delimiter in the id of a path.
pub open spec fn delimiter_place(id: Seq<u8>) -> int {
    choose|at: int| numbered(id, at)
}

/// The id starts with a number that can be held, and the delimiter.
pub open spec fn has_number(id: Seq<u8>) -> bool {
    exists|at: int| numbered(id, at) && digits_value(#[trigger] id.take(at)) <= usize::MAX
}

/// What a path with a numbered id adds: what stands in its place, and
/// the path itself if it is a shared definition.
pub open spec fn path_effect(
    plan: Seq<PathRecord>,
    before: Written,
    attrs: Seq<AttributeText>,
) -> Written {
    let at = id_place(attrs);
    let d = delimiter_place(attrs[at].value);
    let number = digits_value(attrs[at].value.take(d));
    let kept = stripped(attrs, at, d + 1);
    Written {
        out: before.out + in_place_text(emissions_spec(plan)[number as int], kept),
        defs: if plan[number as int].state == State::Referred {
            before.defs.push(DefinitionText { number: number as usize, attrs: kept })
        } else {
            before.defs
        },
        depth: before.depth,
    }
}

/// What rewriting a path with the attributes `attrs` gives. A path
/// without an id, with an id that does not start with a number and the
/// delimiter, or with the number of no path that was looked at is
/// refused, in this order. Any other path has the effect that
/// [`path_effect`] names.
pub open spec fn path_result(
    plan: Seq<PathRecord>,
    before: Written,
    attrs: Seq<AttributeText>,
) -> Result<Written, Fault> {
    if lacks_key(attrs, name_id()) {
        Err(Fault::PathWithoutId)
    } else {
        let id = attrs[id_place(attrs)].value;
        let number = digits_value(id.take(delimiter_place(id)));
        if !has_number(id) {
            Err(Fault::PathNotNumbered)
        } else if number >= plan.len() {
            Err(Fault::UnknownPath(number as usize))
        } else {
            Ok(path_effect(plan, before, attrs))
        }
    }
}

/// The first attribute with a name is at one place only.
proof fn lemma_id_place(attrs: Seq<AttributeText>, at: int)
    requires
        is_first_key(attrs, name_id(), at),
    ensures
        id_place(attrs) == at,
        !lacks_key(attrs, name_id()),
{
    let chosen = id_place(attrs);
    assert(is_first_key(attrs, name_id(), chosen));
    if chosen < at {
        assert(attrs[chosen].key != name_id());
    } else if at < chosen {
        assert(attrs[at].key != name_id());
    }
    assert(attrs[at].key == name_id());
}

/// The delimiter that ends the number of an id is at one place only.
proof fn lemma_delimiter_place(id: Seq<u8>, d: int)
    requires
        numbered(id, d),
    ensures
        delimiter_place(id) == d,
{
    let chosen = delimiter_place(id);
    assert(numbered(id, chosen));
    if chosen < d {
        assert(is_digit(id[chosen]));
    } else if d < chosen {
        assert(is_digit(id[d]));
    }
}

/// A path that was rewritten has had the effect that [`path_effect`]
/// names: there is one attribute `id` that comes first, and one delimiter
/// that ends a number.
pub proof fn lemma_path_effect(
    plan: Seq<PathRecord>,
    attrs: Seq<AttributeText>,
    before: Written,
    after: Written,
)
    requires
        path_rewritten(plan, attrs, before.out, after.out, before.defs, after.defs),
        after.depth == before.depth,
    ensures
        path_result(plan, before, attrs) == Ok::<Written, Fault>(after),
{
    let (at, rest) = choose|at: int, rest: int|
        {
            let number = digits_value(attrs[at].value.take(rest - 1));
            let kept = stripped(attrs, at, rest);
            &&& is_first_key(attrs, name_id(), at)
            &&& #[trigger] numbered(attrs[at].value, rest - 1)
            &&& number < plan.len()
            &&& number <= usize::MAX
            &&& after.out == before.out + in_place_text(
                emissions_spec(plan)[number as int],
                kept,
            )
            &&& after.defs == if plan[number as int].state == State::Referred {
                before.defs.push(DefinitionText { number: number as usize, attrs: kept })
            } else {
                before.defs
            }
        };
    lemma_id_place(attrs, at);
    let id = attrs[at].value;
    lemma_delimiter_place(id, rest - 1);
    assert(digits_value(id.take(rest - 1)) <= usize::MAX);
    assert(has_number(id));
}

/// A path that was refused was refused as [`path_result`] says.
pub proof fn lemma_path_refused(
    plan: Seq<PathRecord>,
    attrs: Seq<AttributeText>,
    before: Written,
    e: RewriteError,
)
    requires
        path_outcome(
            plan,
            attrs,
            before.out,
            before.out,
            before.defs,
            before.defs,
            Err::<(), RewriteError>(e),
        ),
    ensures
        path_result(plan, before, attrs) == Err::<Written, Fault>(fault_of(e)),
{
    match e {
        RewriteError::PathWithoutId => {},
        RewriteError::PathNotNumbered => {
            let at = choose|at: int|
                is_first_key(attrs, name_id(), at) && forall|d: int|
                    !(numbered(attrs[at].value, d) && digits_value(
                        #[trigger] attrs[at].value.take(d),
                    ) <= usize::MAX);
            lemma_id_place(attrs, at);
            assert(!has_number(attrs[at].value));
        },
        RewriteError::UnknownPath(number) => {
            let (at, rest) = choose|at: int, rest: int|
                is_first_key(attrs, name_id(), at) && #[trigger] numbered(
                    attrs[at].value,
                    rest - 1,
                ) && number == digits_value(attrs[at].value.take(rest - 1));
            lemma_id_place(attrs, at);
            let id = attrs[at].value;
            lemma_delimiter_place(id, rest - 1);
            assert(digits_value(id.take(rest - 1)) <= usize::MAX);
            assert(has_number(id));
        },
        _ => {},
    }
}

/// The number that was put before an id is the number that is read off
/// it: wherever the id that [`numbered_id`] writes has its delimiter behind
/// a run of digits, the digits are those of `number`, and what follows the
/// delimiter is the id as it was.
pub proof fn lemma_number_read_back(number: usize, id: Seq<u8>, at: int)
    requires
        numbered(numbered_id_spec(number, id), at),
    ensures
        at == digit_bytes(number as nat).len(),
        digits_value(numbered_id_spec(number, id).take(at)) == number,
        numbered_id_spec(number, id).skip(at + 1) == id,
{
    let whole = numbered_id_spec(number, id);
    let digits = digit_bytes(number as nat);
    lemma_digit_bytes(number as nat);
    assert forall|k: int| 0 <= k < digits.len() implies is_digit(#[trigger] whole[k]) by {
        assert(whole[k] == digits[k]);
    }
    assert(whole[digits.len() as int] == DELIMITER);
    assert(numbered(whole, digits.len() as int));
    lemma_delimiter_place(whole, at);
    lemma_delimiter_place(whole, digits.len() as int);
    assert(whole.take(at) =~= digits);
    assert(whole.skip(at + 1) =~= id);
}

/// One more `svg` element is open.
pub open spec fn deeper(depth: usize) -> usize {
    if depth < usize::MAX {
        (depth + 1) as usize
    } else {
        depth
    }
}

/// What one event gives, of which `raw` are the bytes as they stand in the
/// page and `attrs` the attributes if it is a path. A path gives way to
/// what stands in its place, or is refused. The closing tag of the
/// outermost `svg` element is preceded by the block of shared definitions,
/// which empties the list. Everything else is copied.
pub open spec fn step_result(
    plan: Seq<PathRecord>,
    before: Written,
    tag: TagText,
    attrs: Seq<AttributeText>,
    raw: Seq<u8>,
) -> Result<Written, Fault> {
    if is_path_tag(tag) {
        path_result(plan, before, attrs)
    } else if is_page_end(tag) && before.depth <= 1 {
        Ok(
            Written {
                out: before.out + definitions_block(before.defs) + raw,
                defs: Seq::empty(),
                depth: 0,
            },
        )
    } else if is_page_end(tag) {
        Ok(
            Written {
                out: before.out + raw,
                defs: before.defs,
                depth: (before.depth - 1) as usize,
            },
        )
    } else if is_page_start(tag) {
        Ok(Written { out: before.out + raw, defs: before.defs, depth: deeper(before.depth) })
    } else {
        Ok(Written { out: before.out + raw, defs: before.defs, depth: before.depth })
    }
}

/// Rewrites one event of a page, of which `raw` are the bytes as they
/// stand in the page and `attrs` the attributes if it is a path. `depth`
/// counts the `svg` elements that are open.
///
/// A path is rewritten as [`rewrite_path`] says. Before the closing tag of
/// the outermost `svg` element the block of shared definitions is written.
/// Everything else is copied as it stands. Where the event is refused,
/// nothing is written.
pub fn rewrite_event(
    plan: &Optimized,
    tag: &Tag,
    attrs: Vec<Attribute>,
    raw: &[u8],
    out: &mut Vec<u8>,
    defs: &mut Vec<Definition>,
    depth: &mut usize,
) -> (result: Result<(), RewriteError>)
    ensures
        match result {
            Ok(()) => step_result(
                plan@,
                written(old(out)@, old(defs)@, *old(depth)),
                tag@,
                texts(attrs@),
                raw@,
            ) == Ok::<Written, Fault>(written(final(out)@, final(defs)@, *final(depth))),
            Err(e) => step_result(
                plan@,
                written(old(out)@, old(defs)@, *old(depth)),
                tag@,
                texts(attrs@),
                raw@,
            ) == Err::<Written, Fault>(fault_of(e)) && final(out)@ == old(out)@ && final(defs)@
                == old(defs)@ && *final(depth) == *old(depth),
        },
{
    let ghost before = written(out@, defs@, *depth);
    if tag_is_path(tag) {
        let ghost attrs_text = texts(attrs@);
        let result = rewrite_path(plan, attrs, out, defs);
        let ghost outcome = result;
        proof {
            match outcome {
                Ok(()) => {
                    lemma_path_effect(plan@, attrs_text, before, written(out@, defs@, *depth));
                },
                Err(e) => {
                    lemma_path_refused(plan@, attrs_text, before, e);
                },
            }
        }
        return result;
    }
    let svg: [u8; 3] = [0x73, 0x76, 0x67];
    assert(svg@ =~= name_svg());
    match tag {
        Tag::End(name) => {
            if same_bytes(name.as_slice(), svg.as_slice()) {
                if *depth <= 1 {
                    write_definitions(out, defs);
                    *depth = 0;
                    assert(definition_texts(defs@) =~= Seq::<DefinitionText>::empty());
                } else {
                    *depth = *depth - 1;
                }
            }
        },
        Tag::Start(name) => {
            if same_bytes(name.as_slice(), svg.as_slice()) {
                if *depth < usize::MAX {
                    *depth = *depth + 1;
                }
            }
        },
        _ => {},
    }
    push_bytes(out, raw);
    Ok(())
}

/// The word `DOCTYPE`, in capitals or not, behind `<!` at `i`.
fn doctype_word_at(xml: &[u8], i: usize) -> (yes: bool)
    requires
        i + 9 <= xml.len(),
    ensures
        yes == doctype_at(xml@, i as int),
{
    xml[i] == 0x3c && xml[i + 1] == 0x21 && (xml[i + 2] == 0x44 || xml[i + 2] == 0x64) && (xml[i
        + 3] == 0x4f || xml[i + 3] == 0x6f) && (xml[i + 4] == 0x43 || xml[i + 4] == 0x63) && (xml[i
        + 5] == 0x54 || xml[i + 5] == 0x74) && (xml[i + 6] == 0x59 || xml[i + 6] == 0x79) && (xml[i
        + 7] == 0x50 || xml[i + 7] == 0x70) && (xml[i + 8] == 0x45 || xml[i + 8] == 0x65)
}

/// Whether a declaration of the document type without a name starts at
/// `i`.
fn nameless_doctype_from(xml: &[u8], i: usize) -> (yes: bool)
    requires
        i < xml.len(),
    ensures
        yes == exists|end: int| nameless_doctype_at(xml@, i as int, end),
{
    if xml.len() - i < 9 || !doctype_word_at(xml, i) {
        return false;
    }
    let mut k: usize = i + 9;
    while k < xml.len() && (xml[k] == 0x20 || xml[k] == 0x09 || xml[k] == 0x0a || xml[k] == 0x0d)
        invariant
            i + 9 <= k <= xml.len(),
            doctype_at(xml@, i as int),
            forall|j: int| i + 9 <= j < k ==> is_reader_blank(#[trigger] xml@[j]),
        decreases xml.len() - k,
    {
        k += 1;
    }
    if k < xml.len() && xml[k] == 0x3e {
        assert(nameless_doctype_at(xml@, i as int, k as int));
        return true;
    }
    assert forall|end: int| !nameless_doctype_at(xml@, i as int, end) by {
        if nameless_doctype_at(xml@, i as int, end) {
            if end < k {
                assert(is_reader_blank(xml@[end]));
            } else if end > k {
                assert(is_reader_blank(xml@[k as int]));
            }
        }
    }
    false
}

/// Whether the page declares a document type without a name, wherever in
/// the page the declaration stands.
pub fn declares_nameless_doctype(xml: &[u8]) -> (yes: bool)
    ensures
        yes == has_nameless_doctype(xml@),
{
    let mut i: usize = 0;
    while i < xml.len()
        invariant
            i <= xml.len(),
            forall|j: int, end: int| 0 <= j < i ==> !nameless_doctype_at(xml@, j, end),
        decreases xml.len() - i,
    {
        if nameless_doctype_from(xml, i) {
            return true;
        }
        i += 1;
    }
    false
}

/// What an event as the reader gives it comes to: a path whose attributes
/// cannot be read is refused as malformed; everything else is as
/// [`step_result`] says.
pub open spec fn event_result(
    plan: Seq<PathRecord>,
    before: Written,
    event: EventText,
    raw: Seq<u8>,
) -> Result<Written, Fault> {
    if is_path_tag(event.tag) {
        match event.attrs {
            Some(attrs) => step_result(plan, before, event.tag, attrs, raw),
            None => Err(Fault::Malformed),
        }
    } else {
        step_result(plan, before, event.tag, Seq::empty(), raw)
    }
}

/// What the reader gave for one event, as it is handed on: the tag, and
/// the attributes or the error of reading them.
pub open spec fn reading(tag: TagText, attrs: Result<Vec<Attribute>, quick_xml::Error>) -> EventText {
    EventText {
        tag,
        attrs: match attrs {
            Ok(a) => Some(texts(a@)),
            Err(_) => None,
        },
    }
}

/// What one reading comes to, when the events before it have taken the
/// first `last` bytes of the page, the reader stands at `now` after it and
/// `before` is what was written: what is written then, and whether the
/// page is done.
///
/// The bytes of the event are those from `last` up to `now`. The reading
/// is refused if the reader has not moved forward within the page, if the
/// event is refused, or if the page ends before the reader has gone through
/// all of it.
pub open spec fn reading_result(
    plan: Seq<PathRecord>,
    xml: Seq<u8>,
    last: nat,
    now: nat,
    before: Written,
    event: EventText,
) -> Result<(Written, bool), Fault> {
    if now < last || now > xml.len() {
        Err(Fault::LostPosition)
    } else {
        match event_result(plan, before, event, xml.subrange(last as int, now as int)) {
            Err(fault) => Err(fault),
            Ok(after) => if !(event.tag is Eof) {
                Ok((after, false))
            } else if now == xml.len() {
                Ok((after, true))
            } else {
                Err(Fault::LostPosition)
            },
        }
    }
}

/// Takes in what the reader gave for one event of the page `xml`: its tag,
/// its attributes or the error of reading them, and the place `now` where
/// the reader stands after it; `last` is where it stood before. Says
/// whether the page is done.
pub fn rewrite_reading(
    plan: &Optimized,
    xml: &[u8],
    last: usize,
    now: usize,
    tag: &Tag,
    attrs: Result<Vec<Attribute>, quick_xml::Error>,
    out: &mut Vec<u8>,
    defs: &mut Vec<Definition>,
    depth: &mut usize,
) -> (result: Result<bool, RewriteError>)
    ensures
        match result {
            Ok(done) => reading_result(
                plan@,
                xml@,
                last as nat,
                now as nat,
                written(old(out)@, old(defs)@, *old(depth)),
                reading(tag@, attrs),
            ) == Ok::<(Written, bool), Fault>((written(final(out)@, final(defs)@, *final(depth)), done)),
            Err(e) => reading_result(
                plan@,
                xml@,
                last as nat,
                now as nat,
                written(old(out)@, old(defs)@, *old(depth)),
                reading(tag@, attrs),
            ) == Err::<(Written, bool), Fault>(fault_of(e)),
        },
{
    if now < last || now > xml.len() {
        return Err(RewriteError::LostPosition);
    }
    let raw = slice_subrange(xml, last, now);
    let is_path = tag_is_path(tag);
    let attrs = match attrs {
        Ok(attrs) => attrs,
        Err(e) => {
            if is_path {
                return Err(RewriteError::Malformed(e));
            }
            let none: Vec<Attribute> = Vec::new();
            none
        },
    };
    let ends = match tag {
        Tag::Eof => true,
        _ => false,
    };
    if ends && now != xml.len() {
        return Err(RewriteError::LostPosition);
    }
    match rewrite_event(plan, tag, attrs, raw, out, defs, depth) {
        Ok(()) => Ok(ends),
        Err(e) => Err(e),
    }
}

/// What rewriting comes to from the event numbered `n` on, when the events
/// before it have taken the first `last` bytes of the page and `before` is
/// what they have given.
///
/// The reader is asked for one event after the other, and each is taken in
/// as [`reading_result`] says. The page is refused if the reader refuses,
/// if it hands out more events than the page has bytes, or if a reading is
/// refused.
pub open spec fn run_from(
    plan: Seq<PathRecord>,
    xml: Seq<u8>,
    n: nat,
    last: nat,
    before: Written,
) -> Result<Seq<u8>, Fault>
    decreases xml.len() + 2 - n,
{
    if n > xml.len() + 1 {
        Err(Fault::TooManyEvents)
    } else {
        match page_event(xml, n) {
            None => Err(Fault::Malformed),
            Some(event) => {
                let now = page_place(xml, n + 1);
                match reading_result(plan, xml, last, now, before, event) {
                    Err(fault) => Err(fault),
                    Ok((after, done)) => if done {
                        Ok(after.out)
                    } else {
                        run_from(plan, xml, n + 1, now, after)
                    },
                }
            },
        }
    }
}

/// What rewriting a page comes to: a page that declares a document type
/// without a name is refused; any other is read from its start.
pub open spec fn rewritten(plan: Seq<PathRecord>, xml: Seq<u8>) -> Result<Seq<u8>, Fault> {
    if has_nameless_doctype(xml) {
        Err(Fault::NamelessDoctype)
    } else {
        run_from(plan, xml, 0, 0, nothing_written())
    }
}

/// No event from the one numbered `n` on is a path or a closing tag of
/// `svg`.
pub open spec fn plain_from(xml: Seq<u8>, n: nat) -> bool {
    forall|m: nat|
        m >= n ==> match #[trigger] page_event(xml, m) {
            Some(event) => !is_path_tag(event.tag) && !is_page_end(event.tag),
            None => true,
        }
}

/// What is no path and no end of the page is copied as it stands and in
/// its order: where no event from the one numbered `n` on is either, a run
/// that comes to an end adds the rest of the page to what was written, byte
/// for byte.
pub proof fn lemma_plain_events_are_copied(
    plan: Seq<PathRecord>,
    xml: Seq<u8>,
    n: nat,
    last: nat,
    before: Written,
)
    requires
        plain_from(xml, n),
        last <= xml.len(),
        run_from(plan, xml, n, last, before) is Ok,
    ensures
        run_from(plan, xml, n, last, before) == Ok::<Seq<u8>, Fault>(
            before.out + xml.subrange(last as int, xml.len() as int),
        ),
    decreases xml.len() + 2 - n,
{
    let event = page_event(xml, n)->Some_0;
    let now = page_place(xml, n + 1);
    let raw = xml.subrange(last as int, now as int);
    assert(page_event(xml, n) is Some);
    assert(!is_path_tag(event.tag) && !is_page_end(event.tag));
    assert(reading_result(plan, xml, last, now, before, event) is Ok);
    let after = event_result(plan, before, event, raw)->Ok_0;
    assert(after.out == before.out + raw);
    if event.tag is Eof {
        assert(raw =~= xml.subrange(last as int, xml.len() as int));
    } else {
        assert(plain_from(xml, n + 1)) by {
            assert forall|m: nat| m >= n + 1 implies match #[trigger] page_event(xml, m) {
                Some(event) => !is_path_tag(event.tag) && !is_page_end(event.tag),
                None => true,
            } by {
                assert(m >= n);
            }
        }
        lemma_plain_events_are_copied(plan, xml, n + 1, now, after);
        assert(after.out + xml.subrange(now as int, xml.len() as int) =~= before.out
            + xml.subrange(last as int, xml.len() as int));
    }
}

/// A page without paths and without a closing tag of `svg` is rewritten
/// to itself, if it is rewritten at all.
pub proof fn lemma_plain_page_is_kept(plan: Seq<PathRecord>, xml: Seq<u8>)
    requires
        plain_from(xml, 0),
        rewritten(plan, xml) is Ok,
    ensures
        rewritten(plan, xml) == Ok::<Seq<u8>, Fault>(xml),
{
    lemma_plain_events_are_copied(plan, xml, 0, 0, nothing_written());
    assert(nothing_written().out + xml.subrange(0, xml.len() as int) =~= xml);
}

/// What a result of rewriting says.
pub open spec fn outcome_of(result: Result<Vec<u8>, RewriteError>) -> Result<Seq<u8>, Fault> {
    match result {
        Ok(out) => Ok(out@),
        Err(e) => Err(fault_of(e)),
    }
}

/// Rewrites a page as `plan` says. The page is read event by event; the
/// id of every path starts with the number of the path and the delimiter,
/// which are taken off again.
///
/// The result is what [`rewritten`] says: which events the page holds is
/// for the reader to say, and what is made of them is decided here,
/// reading by reading, as [`rewrite_reading`] does it.
pub fn rewrite(xml: &[u8], plan: &Optimized) -> (result: Result<Vec<u8>, RewriteError>)
    ensures
        outcome_of(result) == rewritten(plan@, xml@),
{
    if declares_nameless_doctype(xml) {
        return Err(RewriteError::NamelessDoctype);
    }
    let mut reader = open_reader(xml);
    let mut out: Vec<u8> = Vec::new();
    let mut defs: Vec<Definition> = Vec::new();
    let mut depth: usize = 0;
    let mut last: usize = 0;
    let limit: u128 = xml.len() as u128 + 1;
    let mut events: u128 = 0;
    assert(written(out@, defs@, depth) == nothing_written()) by {
        assert(definition_texts(defs@) =~= Seq::<DefinitionText>::empty());
    }
    loop
        invariant
            !has_nameless_doctype(xml@),
            reader_page(reader) == xml@,
            reader_reads(reader) == events,
            last <= xml.len(),
            events <= limit + 1,
            limit == xml.len() + 1,
            rewritten(plan@, xml@) == run_from(
                plan@,
                xml@,
                events as nat,
                last as nat,
                written(out@, defs@, depth),
            ),
        decreases limit + 1 - events,
    {
        let ghost before = written(out@, defs@, depth);
        let ghost n = events as nat;
        if events > limit {
            return Err(RewriteError::TooManyEvents);
        }
        events += 1;
        let event = match next_event(&mut reader) {
            Ok(event) => event,
            Err(e) => {
                return Err(RewriteError::Malformed(e));
            },
        };
        let ghost said = event_text(event);
        assert(page_event(xml@, n) == Some(said));
        let now = position(&reader);
        assert(now == page_place(xml@, n + 1));
        let tag = tag_of(&event);
        let attrs = if tag_is_path(&tag) {
            attributes_of(&event)
        } else {
            Ok(Vec::new())
        };
        assert(reading_result(plan@, xml@, last as nat, now as nat, before, said)
            == reading_result(plan@, xml@, last as nat, now as nat, before, reading(tag@, attrs)));
        match rewrite_reading(plan, xml, last, now, &tag, attrs, &mut out, &mut defs, &mut depth) {
            Ok(done) => {
                if done {
                    return Ok(out);
                }
            },
            Err(e) => {
                return Err(e);
            },
        }
        last = now;
    }
}

} // verus!
