//! XML property list parser.
//!
//! The XML is read as a stream of events by `quick_xml`, text kept as
//! written.  Parsing is a state machine over that stream: text between
//! elements is passed over, the text of an element is kept whole (numbers
//! and dates are read from it trimmed).  Each event moves
//! a stack of open elements forward, until the value inside `<plist>` is
//! complete and the closing `</plist>` (or the end) has been read.
use vstd::prelude::*;
use vstd::string::*;

use quick_xml::events::Event;
use std::borrow::Cow;
use vstd::utf8::{decode_utf8, encode_utf8, valid_utf8};

use crate::reals::{deterministic_parse, parse_real, parsed_by};
use crate::text::{
    chars_of, parse_int, parse_integer, string_of, trim_bounds, trimmed,
};
use crate::unicode::push_char;
use crate::value::{pair_views, views, SpecValue, Value};
use crate::xplist::date::{iso8601_to_apple_epoch, iso_read};

verus! {

/// `quick_xml`'s error type.
#[verifier::external_type_specification]
#[verifier::external_body]
pub struct ExXmlError(quick_xml::Error);

/// `quick_xml`'s reader over a byte slice.
#[verifier::external_type_specification]
#[verifier::external_body]
#[verifier::reject_recursive_types(R)]
pub struct ExXmlReader<R>(quick_xml::Reader<R>);

/// An XML event, with what the parser reads of it.
pub enum XmlEvent {
    /// A start tag, by name.
    Start(Vec<u8>),
    /// An empty-element tag (`<name/>`), by name.
    Empty(Vec<u8>),
    /// An end tag, by name.
    End(Vec<u8>),
    /// Character data, unescaped (or the error unescaping it).
    Text(Result<String, quick_xml::Error>),
    /// A comment.
    Comment,
    /// The end of the input.
    Eof,
    /// Any other event (declaration, DOCTYPE, CDATA, processing instruction).
    Other,
}

/// The model of an XML event read (or of a read that failed).
pub enum EventModel {
    Start(Seq<u8>),
    Empty(Seq<u8>),
    End(Seq<u8>),
    Text(Option<Seq<char>>),
    Comment,
    Eof,
    Other,
    Error,
}

/// The model of the outcome of a read.
pub open spec fn event_model(r: Result<XmlEvent, quick_xml::Error>) -> EventModel {
    match r {
        Ok(XmlEvent::Start(n)) => EventModel::Start(n@),
        Ok(XmlEvent::Empty(n)) => EventModel::Empty(n@),
        Ok(XmlEvent::End(n)) => EventModel::End(n@),
        Ok(XmlEvent::Text(Ok(t))) => EventModel::Text(Some(t@)),
        Ok(XmlEvent::Text(Err(_))) => EventModel::Text(None),
        Ok(XmlEvent::Comment) => EventModel::Comment,
        Ok(XmlEvent::Eof) => EventModel::Eof,
        Ok(XmlEvent::Other) => EventModel::Other,
        Err(_) => EventModel::Error,
    }
}

/// Event `index` (counting from 0) of `input` as `quick_xml` gives it.  It
/// stands for three outside functions used together: `Reader::from_reader`
/// with its default configuration (made once per input), `Reader::read_event_into`
/// called `index + 1` times, and, for a text event, `BytesText::unescape`.
pub uninterp spec fn xml_event(input: Seq<u8>, index: nat) -> EventModel;

/// `Reader::from_reader`: a `quick_xml` reader over `input`, with the
/// default configuration (text kept as written).
#[verifier::external_body]
fn xml_reader(input: &[u8]) -> quick_xml::Reader<&[u8]> {
    quick_xml::Reader::from_reader(input)
}

/// `Reader::read_event_into` on the reader of `src`: yields event
/// `src.count()` of `src.input()`, the text of a text event unescaped with
/// `BytesText::unescape`.  The reader of a source is made over its input by
/// `XmlSource::new` and is advanced only here, once per call of
/// `XmlSource::next`, which then counts the event; so the reader has read
/// `src.count()` events of `src.input()` when this is called.
#[verifier::external_body]
fn read_xml_event(src: &mut XmlSource) -> (r: Result<XmlEvent, quick_xml::Error>)
    ensures
        event_model(r) == xml_event(old(src).input(), old(src).count()),
        final(src).input() == old(src).input(),
        final(src).count() == old(src).count(),
{
    match src.reader.read_event_into(&mut Vec::new()) {
        Ok(Event::Start(e)) => Ok(XmlEvent::Start(e.name().as_ref().to_vec())),
        Ok(Event::Empty(e)) => Ok(XmlEvent::Empty(e.name().as_ref().to_vec())),
        Ok(Event::End(e)) => Ok(XmlEvent::End(e.name().as_ref().to_vec())),
        Ok(Event::Text(e)) => Ok(XmlEvent::Text(e.unescape().map(Cow::into_owned))),
        Ok(Event::Comment(_)) => Ok(XmlEvent::Comment),
        Ok(Event::Eof) => Ok(XmlEvent::Eof),
        Ok(_) => Ok(XmlEvent::Other),
        Err(e) => Err(e),
    }
}

/// The events of an input, read one at a time.
pub struct XmlSource<'a> {
    reader: quick_xml::Reader<&'a [u8]>,
    input: &'a [u8],
    count: usize,
}

impl<'a> XmlSource<'a> {
    /// The input being read.
    pub closed spec fn input(&self) -> Seq<u8> {
        self.input@
    }

    /// The number of events read so far.
    pub closed spec fn count(&self) -> nat {
        self.count as nat
    }

    /// A source at the first event of `input`.
    pub fn new(input: &'a [u8]) -> (s: Self)
        ensures
            s.input() == input@,
            s.count() == 0,
    {
        XmlSource { reader: xml_reader(input), input, count: 0 }
    }

    /// Reads the next event.
    pub fn next(&mut self) -> (r: Result<XmlEvent, quick_xml::Error>)
        requires
            old(self).count() < usize::MAX,
        ensures
            event_model(r) == xml_event(old(self).input(), old(self).count()),
            final(self).input() == old(self).input(),
            final(self).count() == old(self).count() + 1,
    {
        let r = read_xml_event(self);
        self.count = self.count + 1;
        r
    }
}

// ── Errors ──────────────────────────────────────────────────────────────────

/// Deepest nesting of dictionary values the parser follows.
pub const MAX_DEPTH: usize = 256;

/// Why an XML property list could not be parsed.
#[derive(Debug)]
pub enum ParseError {
    /// An error from the XML reader.
    Xml(quick_xml::Error),
    /// No `<plist>` root element was found.
    MissingPlistRoot,
    /// An unknown element tag was met inside the plist.
    UnexpectedTag(String),
    /// A structural XML issue (such as the end of input inside an element).
    UnexpectedEvent,
    /// `<integer>` text that is not an `i64`.
    InvalidInteger(String),
    /// `<real>` text that is not a number.
    InvalidReal(String),
    /// `<data>` text that is not base64.
    InvalidBase64(String),
    /// `<date>` text that is not an ISO 8601 date.
    InvalidDate(String),
    /// Dictionary values nested deeper than the limit.
    MaxDepthExceeded,
}

/// The model of a [`ParseError`]: texts as character sequences, the XML
/// reader's errors all alike.
pub enum SpecXmlError {
    Xml,
    MissingPlistRoot,
    UnexpectedTag(Seq<char>),
    UnexpectedEvent,
    InvalidInteger(Seq<char>),
    InvalidReal(Seq<char>),
    InvalidBase64(Seq<char>),
    InvalidDate(Seq<char>),
    MaxDepthExceeded,
}

impl ParseError {
    pub open spec fn view(self) -> SpecXmlError {
        match self {
            ParseError::Xml(_) => SpecXmlError::Xml,
            ParseError::MissingPlistRoot => SpecXmlError::MissingPlistRoot,
            ParseError::UnexpectedTag(s) => SpecXmlError::UnexpectedTag(s@),
            ParseError::UnexpectedEvent => SpecXmlError::UnexpectedEvent,
            ParseError::InvalidInteger(s) => SpecXmlError::InvalidInteger(s@),
            ParseError::InvalidReal(s) => SpecXmlError::InvalidReal(s@),
            ParseError::InvalidBase64(s) => SpecXmlError::InvalidBase64(s@),
            ParseError::InvalidDate(s) => SpecXmlError::InvalidDate(s@),
            ParseError::MaxDepthExceeded => SpecXmlError::MaxDepthExceeded,
        }
    }
}

/// The model of a parse outcome.
pub open spec fn result_view(r: Result<Value, ParseError>) -> Result<SpecValue, SpecXmlError> {
    match r {
        Ok(v) => Ok(v@),
        Err(e) => Err(e@),
    }
}

// ── Outside helpers ─────────────────────────────────────────────────────────

/// What `String::from_utf8_lossy` gives for `b`.
pub uninterp spec fn lossy_text(b: Seq<u8>) -> Seq<char>;

/// `String::from_utf8_lossy`, owned: the decoding of well-formed UTF-8,
/// with replacement characters for ill-formed parts.
#[verifier::external_body]
fn lossy(b: &[u8]) -> (r: String)
    ensures
        r@ == lossy_text(b@),
        valid_utf8(b@) ==> r@ == decode_utf8(b@),
{
    String::from_utf8_lossy(b).into_owned()
}

/// What `base64::engine::general_purpose::STANDARD.decode` gives for `text`
/// (`None` when it is not valid padded base64).
pub uninterp spec fn base64_decoded(text: Seq<u8>) -> Option<Seq<u8>>;

/// `base64::engine::general_purpose::STANDARD.decode`.
#[verifier::external_body]
fn base64_decode(text: &[u8]) -> (r: Option<Vec<u8>>)
    ensures
        match r {
            Some(d) => base64_decoded(text@) == Some(d@),
            None => base64_decoded(text@) is None,
        },
{
    base64::Engine::decode(&base64::engine::general_purpose::STANDARD, text).ok()
}

/// The UTF-8 bytes of the text `s`.
pub open spec fn lit(s: &str) -> Seq<u8> {
    encode_utf8(s@)
}

/// Whether the name `n` is the UTF-8 of `s`.
fn name_is(n: &Vec<u8>, s: &str) -> (b: bool)
    ensures
        b == (n@ == lit(s)),
{
    let sb = s.as_bytes();
    if n.len() != sb.len() {
        return false;
    }
    let mut k: usize = 0;
    while k < n.len()
        invariant
            k <= n@.len(),
            n@.len() == sb@.len(),
            sb@ == lit(s),
            forall|j: int| 0 <= j < k ==> n@[j] == sb@[j],
        decreases n@.len() - k,
    {
        if n[k] != sb[k] {
            return false;
        }
        k = k + 1;
    }
    assert(n@ =~= sb@);
    true
}

// ── Values from text ────────────────────────────────────────────────────────

/// The value of an empty element `<name/>`.
pub open spec fn empty_value(name: Seq<u8>) -> Result<SpecValue, SpecXmlError> {
    if name == lit("true") {
        Ok(SpecValue::Bool(true))
    } else if name == lit("false") {
        Ok(SpecValue::Bool(false))
    } else if name == lit("string") {
        Ok(SpecValue::String(Seq::empty()))
    } else if name == lit("data") {
        Ok(SpecValue::Data(Seq::empty()))
    } else if name == lit("array") {
        Ok(SpecValue::Array(Seq::empty()))
    } else if name == lit("dict") {
        Ok(SpecValue::Dictionary(Seq::empty()))
    } else {
        Err(SpecXmlError::UnexpectedTag(lossy_text(name)))
    }
}

/// The value of an empty element `<name/>`.
fn parse_empty_name(name: &Vec<u8>) -> (r: Result<Value, ParseError>)
    ensures
        result_view(r) == empty_value(name@),
{
    if name_is(name, "true") {
        Ok(Value::Bool(true))
    } else if name_is(name, "false") {
        Ok(Value::Bool(false))
    } else if name_is(name, "string") {
        Ok(Value::String(String::new()))
    } else if name_is(name, "data") {
        let v = Value::Data(Vec::new());
        assert(v@ == SpecValue::Data(Seq::empty()));
        Ok(v)
    } else if name_is(name, "array") {
        let items: Vec<Value> = Vec::new();
        proof {
            crate::value::lemma_items_views(items);
            assert(views(items@) =~= Seq::<SpecValue>::empty());
        }
        Ok(Value::Array(items))
    } else if name_is(name, "dict") {
        let pairs: Vec<(Value, Value)> = Vec::new();
        proof {
            crate::value::lemma_pairs_views(pairs);
            assert(pair_views(pairs@) =~= Seq::<(SpecValue, SpecValue)>::empty());
        }
        Ok(Value::Dictionary(pairs))
    } else {
        Err(ParseError::UnexpectedTag(lossy(name.as_slice())))
    }
}

/// Whether `c` is ASCII white space (space, tab, line feed, form feed,
/// carriage return).
pub open spec fn is_ascii_white(c: char) -> bool {
    c == ' ' || c == '\t' || c == '\n' || c == '\x0C' || c == '\r'
}

/// `s` without its ASCII white space.
pub open spec fn strip_ascii_white(s: Seq<char>) -> Seq<char>
    decreases s.len(),
{
    if s.len() == 0 {
        Seq::empty()
    } else if is_ascii_white(s.last()) {
        strip_ascii_white(s.drop_last())
    } else {
        strip_ascii_white(s.drop_last()).push(s.last())
    }
}

/// What a text element gives: its kind decides how the text is read.
#[derive(Clone, Copy)]
pub enum TextKind {
    String,
    Integer,
    Real,
    Data,
    Date,
    Key,
}

/// The value of the text `t` of an `<integer>`, `<real>`, `<data>`,
/// `<date>` or `<string>` element (reals read by `f`).
pub open spec fn text_value<F: Fn(&str) -> Option<u64>>(kind: TextKind, t: Seq<char>, f: F) -> Result<SpecValue, SpecXmlError> {
    match kind {
        TextKind::Integer => match parse_int(encode_utf8(trimmed(t)), true, i64::MIN as int, i64::MAX as int) {
            Some(i) => Ok(SpecValue::Integer(i as i64)),
            None => Err(SpecXmlError::InvalidInteger(t)),
        },
        TextKind::Real => match parsed_by(f, trimmed(t)) {
            Some(b) => Ok(SpecValue::Real(b)),
            None => Err(SpecXmlError::InvalidReal(t)),
        },
        TextKind::Data => {
            let stripped = strip_ascii_white(t);
            match base64_decoded(encode_utf8(stripped)) {
                Some(d) => Ok(SpecValue::Data(d)),
                None => Err(SpecXmlError::InvalidBase64(stripped)),
            }
        },
        TextKind::Date => match iso_read(trimmed(t)) {
            Some(b) => Ok(SpecValue::Date(b)),
            None => Err(SpecXmlError::InvalidDate(t)),
        },
        _ => Ok(SpecValue::String(t)),
    }
}

/// `s` trimmed of white space.
fn trim_string(s: &String) -> (t: String)
    ensures
        t@ == trimmed(s@),
{
    let cs = chars_of(s.as_str());
    let (a, b) = trim_bounds(&cs);
    string_of(&cs, a, b)
}

/// `s` without its ASCII white space.
fn strip_white(s: &String) -> (t: String)
    ensures
        t@ == strip_ascii_white(s@),
{
    let cs = chars_of(s.as_str());
    let mut out = String::new();
    let mut k: usize = 0;
    while k < cs.len()
        invariant
            k <= cs@.len(),
            cs@ == s@,
            out@ == strip_ascii_white(cs@.take(k as int)),
        decreases cs@.len() - k,
    {
        assert(cs@.take(k + 1).drop_last() =~= cs@.take(k as int));
        let c = cs[k];
        if !(c == ' ' || c == '\t' || c == '\n' || c == '\x0C' || c == '\r') {
            push_char(&mut out, c);
        }
        k = k + 1;
    }
    assert(cs@.take(k as int) =~= s@);
    out
}

/// The value of the text `t` of a text element of kind `kind` (reals read
/// by `f`).
fn finish_text<F: Fn(&str) -> Option<u64>>(kind: TextKind, t: &String, parse_real_fn: &F) -> (r: Result<Value, ParseError>)
    requires
        forall|s: &str| #[trigger] parse_real_fn.requires((s,)),
    ensures
        !(kind is Real) || deterministic_parse(*parse_real_fn) ==> result_view(r) == text_value(kind, t@, *parse_real_fn),
{
    match kind {
        TextKind::Integer => {
            let tt = trim_string(t);
            let b = tt.as_str().as_bytes();
            match parse_integer(b, 0, b.len(), true, i64::MIN, i64::MAX) {
                Some(i) => {
                    assert(b@.subrange(0, b@.len() as int) =~= b@);
                    Ok(Value::Integer(i))
                },
                None => {
                    assert(b@.subrange(0, b@.len() as int) =~= b@);
                    Err(ParseError::InvalidInteger(t.clone()))
                },
            }
        },
        TextKind::Real => {
            let tt = trim_string(t);
            match parse_real(parse_real_fn, tt.as_str()) {
                Some(bits) => Ok(Value::Real(bits)),
                None => Err(ParseError::InvalidReal(t.clone())),
            }
        },
        TextKind::Data => {
            let stripped = strip_white(t);
            match base64_decode(stripped.as_str().as_bytes()) {
                Some(d) => Ok(Value::Data(d)),
                None => Err(ParseError::InvalidBase64(stripped)),
            }
        },
        TextKind::Date => {
            let tt = trim_string(t);
            match iso8601_to_apple_epoch(tt.as_str()) {
                Ok(bits) => Ok(Value::Date(bits)),
                Err(_) => Err(ParseError::InvalidDate(t.clone())),
            }
        },
        _ => Ok(Value::String(t.clone())),
    }
}

// ── The state machine ───────────────────────────────────────────────────────

/// An open array or dictionary, with the nesting depth it was opened at.
pub enum SpecFrame {
    /// An array and the items read so far.
    Array(Seq<SpecValue>, nat),
    /// A dictionary and the pairs read so far, before a key.
    Dict(Seq<(SpecValue, SpecValue)>, nat),
    /// A dictionary whose key was read, before its value.
    DictValue(Seq<(SpecValue, SpecValue)>, Seq<char>, nat),
}

/// What the parser is reading.
pub enum SpecMode {
    /// Events before `<plist>`.
    Prolog,
    /// The start of a value at a depth.
    Value(nat),
    /// The contents of the innermost open array or dictionary.
    Collection,
    /// The text of an element (by tag name), read so far.
    Text(Seq<u8>, TextKind, Seq<char>, nat),
    /// The end tag of `<true>` or `<false>`.
    EndOf(Seq<u8>, bool),
    /// Events after the value, up to `</plist>`.
    Epilog(SpecValue),
    /// Finished.
    Done(Result<SpecValue, SpecXmlError>),
}

/// The parser's state: what it is reading and its open collections.
pub struct SpecState {
    pub mode: SpecMode,
    pub stack: Seq<SpecFrame>,
}

/// Finished with `r`.
pub open spec fn finished(st: SpecState, r: Result<SpecValue, SpecXmlError>) -> SpecState {
    SpecState { mode: SpecMode::Done(r), stack: st.stack }
}

/// About to read a value at depth `d` (refused past the depth limit).
pub open spec fn enter_value(stack: Seq<SpecFrame>, d: nat) -> SpecState {
    if d > MAX_DEPTH {
        SpecState { mode: SpecMode::Done(Err(SpecXmlError::MaxDepthExceeded)), stack }
    } else {
        SpecState { mode: SpecMode::Value(d), stack }
    }
}

/// After the start tag `name` of a value at depth `d`.
pub open spec fn start_element(stack: Seq<SpecFrame>, name: Seq<u8>, d: nat) -> SpecState {
    if name == lit("string") {
        SpecState { mode: SpecMode::Text(name, TextKind::String, Seq::empty(), d), stack }
    } else if name == lit("integer") {
        SpecState { mode: SpecMode::Text(name, TextKind::Integer, Seq::empty(), d), stack }
    } else if name == lit("real") {
        SpecState { mode: SpecMode::Text(name, TextKind::Real, Seq::empty(), d), stack }
    } else if name == lit("true") {
        SpecState { mode: SpecMode::EndOf(name, true), stack }
    } else if name == lit("false") {
        SpecState { mode: SpecMode::EndOf(name, false), stack }
    } else if name == lit("data") {
        SpecState { mode: SpecMode::Text(name, TextKind::Data, Seq::empty(), d), stack }
    } else if name == lit("date") {
        SpecState { mode: SpecMode::Text(name, TextKind::Date, Seq::empty(), d), stack }
    } else if name == lit("array") {
        SpecState { mode: SpecMode::Collection, stack: stack.push(SpecFrame::Array(Seq::empty(), d)) }
    } else if name == lit("dict") {
        SpecState { mode: SpecMode::Collection, stack: stack.push(SpecFrame::Dict(Seq::empty(), d)) }
    } else {
        SpecState { mode: SpecMode::Done(Err(SpecXmlError::UnexpectedTag(lossy_text(name)))), stack }
    }
}

/// A complete value `v`: the whole document's, or the next item of the
/// innermost array, or the value of the pending dictionary key.
pub open spec fn deliver(stack: Seq<SpecFrame>, v: SpecValue) -> SpecState {
    if stack.len() == 0 {
        SpecState { mode: SpecMode::Epilog(v), stack }
    } else {
        match stack.last() {
            SpecFrame::Array(items, d) => SpecState {
                mode: SpecMode::Collection,
                stack: stack.drop_last().push(SpecFrame::Array(items.push(v), d)),
            },
            SpecFrame::DictValue(ps, k, d) => SpecState {
                mode: SpecMode::Collection,
                stack: stack.drop_last().push(SpecFrame::Dict(ps.push((SpecValue::String(k), v)), d)),
            },
            SpecFrame::Dict(_, _) => SpecState { mode: SpecMode::Done(Err(SpecXmlError::UnexpectedEvent)), stack },
        }
    }
}

/// After the end tag of a text element of kind `kind` with text `t`.
pub open spec fn finish<F: Fn(&str) -> Option<u64>>(stack: Seq<SpecFrame>, kind: TextKind, t: Seq<char>, f: F) -> SpecState {
    if kind is Key {
        if stack.len() > 0 && stack.last() is Dict {
            let ps = stack.last()->Dict_0;
            let d = stack.last()->Dict_1;
            enter_value(stack.drop_last().push(SpecFrame::DictValue(ps, t, d)), d + 1)
        } else {
            SpecState { mode: SpecMode::Done(Err(SpecXmlError::UnexpectedEvent)), stack }
        }
    } else {
        match text_value(kind, t, f) {
            Ok(v) => deliver(stack, v),
            Err(x) => SpecState { mode: SpecMode::Done(Err(x)), stack },
        }
    }
}

/// Inside the innermost open collection, on event `e`.
pub open spec fn collection_step(st: SpecState, e: EventModel) -> SpecState {
    let stack = st.stack;
    if stack.len() == 0 {
        finished(st, Err(SpecXmlError::UnexpectedEvent))
    } else {
        match stack.last() {
            SpecFrame::Array(items, d) => match e {
                EventModel::Error => finished(st, Err(SpecXmlError::Xml)),
                EventModel::End(n) => if n == lit("array") {
                    deliver(stack.drop_last(), SpecValue::Array(items))
                } else {
                    st
                },
                EventModel::Start(n) => start_element(stack, n, d + 1),
                EventModel::Empty(n) => match empty_value(n) {
                    Ok(v) => SpecState {
                        mode: SpecMode::Collection,
                        stack: stack.drop_last().push(SpecFrame::Array(items.push(v), d)),
                    },
                    Err(x) => finished(st, Err(x)),
                },
                EventModel::Eof => finished(st, Err(SpecXmlError::UnexpectedEvent)),
                _ => st,
            },
            SpecFrame::Dict(ps, d) => match e {
                EventModel::Error => finished(st, Err(SpecXmlError::Xml)),
                EventModel::End(n) => if n == lit("dict") {
                    deliver(stack.drop_last(), SpecValue::Dictionary(ps))
                } else {
                    st
                },
                EventModel::Start(n) => if n == lit("key") {
                    SpecState { mode: SpecMode::Text(n, TextKind::Key, Seq::empty(), d), stack }
                } else {
                    st
                },
                EventModel::Eof => finished(st, Err(SpecXmlError::UnexpectedEvent)),
                _ => st,
            },
            SpecFrame::DictValue(_, _, _) => finished(st, Err(SpecXmlError::UnexpectedEvent)),
        }
    }
}

/// One event `e` read in state `st` (reals read by `f`).
pub open spec fn spec_step<F: Fn(&str) -> Option<u64>>(st: SpecState, e: EventModel, f: F) -> SpecState {
    let stack = st.stack;
    match st.mode {
        SpecMode::Done(_) => st,
        SpecMode::Prolog => match e {
            EventModel::Error => finished(st, Err(SpecXmlError::Xml)),
            EventModel::Start(n) => if n == lit("plist") {
                enter_value(stack, 0)
            } else {
                st
            },
            EventModel::Eof => finished(st, Err(SpecXmlError::MissingPlistRoot)),
            _ => st,
        },
        SpecMode::Value(d) => match e {
            EventModel::Error => finished(st, Err(SpecXmlError::Xml)),
            EventModel::Start(n) => start_element(stack, n, d),
            EventModel::Empty(n) => match empty_value(n) {
                Ok(v) => deliver(stack, v),
                Err(x) => finished(st, Err(x)),
            },
            EventModel::Text(_) => st,
            EventModel::Comment => st,
            _ => finished(st, Err(SpecXmlError::UnexpectedEvent)),
        },
        SpecMode::Collection => collection_step(st, e),
        SpecMode::Text(tag, kind, acc, d) => match e {
            EventModel::Error => finished(st, Err(SpecXmlError::Xml)),
            EventModel::Text(Some(t)) => SpecState { mode: SpecMode::Text(tag, kind, acc + t, d), stack },
            EventModel::Text(None) => finished(st, Err(SpecXmlError::Xml)),
            EventModel::End(n) => if n == tag {
                finish(stack, kind, acc, f)
            } else {
                finished(st, Err(SpecXmlError::UnexpectedEvent))
            },
            EventModel::Comment => st,
            _ => finished(st, Err(SpecXmlError::UnexpectedEvent)),
        },
        SpecMode::EndOf(tag, b) => match e {
            EventModel::Error => finished(st, Err(SpecXmlError::Xml)),
            EventModel::End(n) => if n == tag {
                deliver(stack, SpecValue::Bool(b))
            } else {
                finished(st, Err(SpecXmlError::UnexpectedEvent))
            },
            EventModel::Text(_) => st,
            EventModel::Comment => st,
            _ => finished(st, Err(SpecXmlError::UnexpectedEvent)),
        },
        SpecMode::Epilog(v) => match e {
            EventModel::Error => finished(st, Err(SpecXmlError::Xml)),
            EventModel::End(n) => if n == lit("plist") {
                finished(st, Ok(v))
            } else {
                st
            },
            EventModel::Eof => finished(st, Ok(v)),
            _ => st,
        },
    }
}

/// Runs the parser over the events of `input` from event `i` in state `st`;
/// at most one event per input byte and one more are read.
pub open spec fn run<F: Fn(&str) -> Option<u64>>(input: Seq<u8>, i: nat, st: SpecState, f: F) -> Result<SpecValue, SpecXmlError>
    decreases input.len() + 1 - i,
{
    if st.mode is Done {
        st.mode->Done_0
    } else if i > input.len() || i >= usize::MAX {
        Err(SpecXmlError::UnexpectedEvent)
    } else {
        run(input, i + 1, spec_step(st, xml_event(input, i), f), f)
    }
}

/// What parsing the XML property list `input` gives (reals read by `f`).
pub open spec fn spec_parse_xml<F: Fn(&str) -> Option<u64>>(input: Seq<u8>, f: F) -> Result<SpecValue, SpecXmlError> {
    run(input, 0, SpecState { mode: SpecMode::Prolog, stack: Seq::empty() }, f)
}

// ── The state machine, executable ───────────────────────────────────────────

/// An open array or dictionary (see [`SpecFrame`]).
pub enum Frame {
    Array(Vec<Value>, usize),
    Dict(Vec<(Value, Value)>, usize),
    DictValue(Vec<(Value, Value)>, String, usize),
}

impl Frame {
    pub open spec fn view(self) -> SpecFrame {
        match self {
            Frame::Array(items, d) => SpecFrame::Array(views(items@), d as nat),
            Frame::Dict(ps, d) => SpecFrame::Dict(pair_views(ps@), d as nat),
            Frame::DictValue(ps, k, d) => SpecFrame::DictValue(pair_views(ps@), k@, d as nat),
        }
    }

    /// The depth the collection was opened at.
    pub open spec fn depth(self) -> nat {
        match self {
            Frame::Array(_, d) => d as nat,
            Frame::Dict(_, d) => d as nat,
            Frame::DictValue(_, _, d) => d as nat,
        }
    }
}

/// What the parser is reading (see [`SpecMode`]).
pub enum Mode {
    Prolog,
    Value(usize),
    Collection,
    Text(Vec<u8>, TextKind, String, usize),
    EndOf(Vec<u8>, bool),
    Epilog(Value),
    Done(Result<Value, ParseError>),
}

impl Mode {
    pub open spec fn view(self) -> SpecMode {
        match self {
            Mode::Prolog => SpecMode::Prolog,
            Mode::Value(d) => SpecMode::Value(d as nat),
            Mode::Collection => SpecMode::Collection,
            Mode::Text(tag, k, acc, d) => SpecMode::Text(tag@, k, acc@, d as nat),
            Mode::EndOf(tag, b) => SpecMode::EndOf(tag@, b),
            Mode::Epilog(v) => SpecMode::Epilog(v@),
            Mode::Done(r) => SpecMode::Done(result_view(r)),
        }
    }
}

/// The models of a stack of frames.
pub open spec fn frame_views(s: Seq<Frame>) -> Seq<SpecFrame> {
    Seq::new(s.len(), |i: int| s[i]@)
}

/// The parser's state (see [`SpecState`]).
pub struct ParserState {
    pub mode: Mode,
    pub stack: Vec<Frame>,
}

impl ParserState {
    pub open spec fn view(self) -> SpecState {
        SpecState { mode: self.mode@, stack: frame_views(self.stack@) }
    }

    /// Every depth held is at most `n`.
    pub open spec fn depths_within(self, n: nat) -> bool {
        &&& forall|i: int| 0 <= i < self.stack@.len() ==> (#[trigger] self.stack@[i]).depth() <= n
        &&& (self.mode matches Mode::Value(d) ==> d <= n)
        &&& (self.mode matches Mode::Text(_, _, _, d) ==> d <= n)
    }
}

/// Finished with `r`.
fn finish_with(stack: Vec<Frame>, r: Result<Value, ParseError>) -> (st: ParserState)
    ensures
        st@ == (SpecState { mode: SpecMode::Done(result_view(r)), stack: frame_views(stack@) }),
        st.mode is Done,
        st.stack@ == stack@,
{
    ParserState { mode: Mode::Done(r), stack }
}

/// About to read a value at depth `d`.
fn enter_value_exec(stack: Vec<Frame>, d: usize) -> (st: ParserState)
    ensures
        st@ == enter_value(frame_views(stack@), d as nat),
        st.mode matches Mode::Value(dd) ==> dd == d,
        !(st.mode is Text),
        st.stack@ == stack@,
{
    if d > MAX_DEPTH {
        ParserState { mode: Mode::Done(Err(ParseError::MaxDepthExceeded)), stack }
    } else {
        ParserState { mode: Mode::Value(d), stack }
    }
}

/// After the start tag `name` of a value at depth `d`.
fn start_element_exec(stack: Vec<Frame>, name: Vec<u8>, d: usize) -> (st: ParserState)
    ensures
        st@ == start_element(frame_views(stack@), name@, d as nat),
        st.mode matches Mode::Text(_, _, _, dd) ==> dd == d,
        !(st.mode is Value),
        st.stack@.len() >= stack@.len(),
        forall|i: int| 0 <= i < stack@.len() ==> st.stack@[i] == stack@[i],
        forall|i: int| stack@.len() <= i < st.stack@.len() ==> (#[trigger] st.stack@[i]).depth() == d,
{
    let mut stack = stack;
    let ghost s0 = stack@;
    if name_is(&name, "string") {
        ParserState { mode: Mode::Text(name, TextKind::String, String::new(), d), stack }
    } else if name_is(&name, "integer") {
        ParserState { mode: Mode::Text(name, TextKind::Integer, String::new(), d), stack }
    } else if name_is(&name, "real") {
        ParserState { mode: Mode::Text(name, TextKind::Real, String::new(), d), stack }
    } else if name_is(&name, "true") {
        ParserState { mode: Mode::EndOf(name, true), stack }
    } else if name_is(&name, "false") {
        ParserState { mode: Mode::EndOf(name, false), stack }
    } else if name_is(&name, "data") {
        ParserState { mode: Mode::Text(name, TextKind::Data, String::new(), d), stack }
    } else if name_is(&name, "date") {
        ParserState { mode: Mode::Text(name, TextKind::Date, String::new(), d), stack }
    } else if name_is(&name, "array") {
        let items: Vec<Value> = Vec::new();
        assert(views(items@) =~= Seq::<SpecValue>::empty());
        stack.push(Frame::Array(items, d));
        assert(frame_views(stack@) =~= frame_views(s0).push(SpecFrame::Array(Seq::empty(), d as nat)));
        ParserState { mode: Mode::Collection, stack }
    } else if name_is(&name, "dict") {
        let ps: Vec<(Value, Value)> = Vec::new();
        assert(pair_views(ps@) =~= Seq::<(SpecValue, SpecValue)>::empty());
        stack.push(Frame::Dict(ps, d));
        assert(frame_views(stack@) =~= frame_views(s0).push(SpecFrame::Dict(Seq::empty(), d as nat)));
        ParserState { mode: Mode::Collection, stack }
    } else {
        let t = lossy(name.as_slice());
        ParserState { mode: Mode::Done(Err(ParseError::UnexpectedTag(t))), stack }
    }
}

/// A complete value `v` delivered to the innermost open collection (or as
/// the document's).
fn deliver_exec(stack: Vec<Frame>, v: Value) -> (st: ParserState)
    ensures
        st@ == deliver(frame_views(stack@), v@),
        !(st.mode is Value) && !(st.mode is Text),
        st.stack@.len() <= stack@.len(),
        forall|i: int| 0 <= i < st.stack@.len() ==> (#[trigger] st.stack@[i]).depth() == stack@[i].depth(),
{
    let mut stack = stack;
    let ghost s0 = stack@;
    if stack.len() == 0 {
        return ParserState { mode: Mode::Epilog(v), stack };
    }
    let top = stack.pop().unwrap();
    assert(top == s0.last());
    assert(frame_views(stack@) =~= frame_views(s0).drop_last());
    match top {
        Frame::Array(mut items, d) => {
            let ghost before = items@;
            items.push(v);
            assert(views(items@) =~= views(before).push(v@));
            stack.push(Frame::Array(items, d));
            assert(frame_views(stack@) =~= frame_views(s0).drop_last().push(SpecFrame::Array(views(before).push(v@), d as nat)));
            ParserState { mode: Mode::Collection, stack }
        },
        Frame::DictValue(mut ps, k, d) => {
            let ghost before = ps@;
            let ghost kv = k@;
            ps.push((Value::String(k), v));
            assert(pair_views(ps@) =~= pair_views(before).push((SpecValue::String(kv), v@)));
            stack.push(Frame::Dict(ps, d));
            assert(frame_views(stack@) =~= frame_views(s0).drop_last().push(SpecFrame::Dict(pair_views(before).push((SpecValue::String(kv), v@)), d as nat)));
            ParserState { mode: Mode::Collection, stack }
        },
        Frame::Dict(ps, d) => {
            stack.push(Frame::Dict(ps, d));
            assert(frame_views(stack@) =~= frame_views(s0));
            ParserState { mode: Mode::Done(Err(ParseError::UnexpectedEvent)), stack }
        },
    }
}

/// After the end tag of a text element of kind `kind` with text `t`.
fn finish_exec<F: Fn(&str) -> Option<u64>>(stack: Vec<Frame>, kind: TextKind, t: String, parse_real_fn: &F, Ghost(n): Ghost<nat>) -> (st: ParserState)
    requires
        forall|s: &str| #[trigger] parse_real_fn.requires((s,)),
        forall|i: int| 0 <= i < stack@.len() ==> (#[trigger] stack@[i]).depth() <= n,
        n < usize::MAX,
    ensures
        !(kind is Real) || deterministic_parse(*parse_real_fn) ==> st@ == finish(frame_views(stack@), kind, t@, *parse_real_fn),
        st.depths_within(n + 1),
{
    let mut stack = stack;
    let ghost s0 = stack@;
    if matches!(kind, TextKind::Key) {
        if stack.len() > 0 && matches!(stack[stack.len() - 1], Frame::Dict(..)) {
            let top = stack.pop().unwrap();
            assert(frame_views(stack@) =~= frame_views(s0).drop_last());
            match top {
                Frame::Dict(ps, d) => {
                    let ghost pv = pair_views(ps@);
                    let ghost tv = t@;
                    stack.push(Frame::DictValue(ps, t, d));
                    assert(frame_views(stack@) =~= frame_views(s0).drop_last().push(SpecFrame::DictValue(pv, tv, d as nat)));
                    assert(d <= n);
                    enter_value_exec(stack, d + 1)
                },
                _ => {
                    proof {
                        assert(false);
                    }
                    finish_with(stack, Err(ParseError::UnexpectedEvent))
                },
            }
        } else {
            finish_with(stack, Err(ParseError::UnexpectedEvent))
        }
    } else {
        match finish_text(kind, &t, parse_real_fn) {
            Ok(v) => deliver_exec(stack, v),
            Err(x) => finish_with(stack, Err(x)),
        }
    }
}

/// Inside an open array (popped off `stack`, with `items` so far, opened
/// at depth `d`), on event `ev`.
#[verifier::spinoff_prover]
fn array_step(stack: Vec<Frame>, items: Vec<Value>, d: usize, ev: Result<XmlEvent, quick_xml::Error>, Ghost(n): Ghost<nat>) -> (r: ParserState)
    requires
        forall|i: int| 0 <= i < stack@.len() ==> (#[trigger] stack@[i]).depth() <= n,
        d <= n,
        n < usize::MAX,
    ensures
        r@ == collection_step(
            SpecState { mode: SpecMode::Collection, stack: frame_views(stack@).push(SpecFrame::Array(views(items@), d as nat)) },
            event_model(ev),
        ),
        r.depths_within(n + 1),
{
    let mut stack = stack;
    let mut items = items;
    let ghost s0 = frame_views(stack@).push(SpecFrame::Array(views(items@), d as nat));
    let ghost st0 = SpecState { mode: SpecMode::Collection, stack: s0 };
    assert(s0.drop_last() =~= frame_views(stack@));
    match ev {
        Err(e) => {
            stack.push(Frame::Array(items, d));
            assert(forall|i: int| 0 <= i < stack@.len() ==> (#[trigger] stack@[i]).depth() <= n);
            assert(frame_views(stack@) =~= s0);
            finish_with(stack, Err(ParseError::Xml(e)))
        },
        Ok(XmlEvent::End(name)) => {
            if name_is(&name, "array") {
                proof {
                    crate::value::lemma_items_views(items);
                }
                let r = deliver_exec(stack, Value::Array(items));
                assert(r.depths_within(n + 1));
                r
            } else {
                stack.push(Frame::Array(items, d));
                assert(forall|i: int| 0 <= i < stack@.len() ==> (#[trigger] stack@[i]).depth() <= n);
            assert(forall|i: int| 0 <= i < stack@.len() ==> (#[trigger] stack@[i]).depth() <= n);
                assert(frame_views(stack@) =~= s0);
                ParserState { mode: Mode::Collection, stack }
            }
        },
        Ok(XmlEvent::Start(name)) => {
            stack.push(Frame::Array(items, d));
            assert(forall|i: int| 0 <= i < stack@.len() ==> (#[trigger] stack@[i]).depth() <= n);
            assert(frame_views(stack@) =~= s0);
            let ghost sk = stack@;
            let r = start_element_exec(stack, name, d + 1);
            assert(forall|i: int| 0 <= i < r.stack@.len() ==> (#[trigger] r.stack@[i]).depth() <= n + 1) by {
                assert forall|i: int| 0 <= i < r.stack@.len() implies (#[trigger] r.stack@[i]).depth() <= n + 1 by {
                    if i < sk.len() {
                        assert(r.stack@[i] == sk[i]);
                        assert(sk[i].depth() <= n);
                    }
                }
            }
            assert(r.mode matches Mode::Value(dd) ==> dd <= n + 1);
            assert(r.mode matches Mode::Text(_, _, _, dd) ==> dd <= n + 1);
            r
        },
        Ok(XmlEvent::Empty(name)) => {
            match parse_empty_name(&name) {
                Ok(v) => {
                    let ghost before = items@;
                    items.push(v);
                    assert(views(items@) =~= views(before).push(v@));
                    stack.push(Frame::Array(items, d));
                    assert(forall|i: int| 0 <= i < stack@.len() ==> (#[trigger] stack@[i]).depth() <= n);
                assert(forall|i: int| 0 <= i < stack@.len() ==> (#[trigger] stack@[i]).depth() <= n);
            assert(forall|i: int| 0 <= i < stack@.len() ==> (#[trigger] stack@[i]).depth() <= n);
                    assert(frame_views(stack@) =~= s0.drop_last().push(SpecFrame::Array(views(before).push(v@), d as nat)));
                    ParserState { mode: Mode::Collection, stack }
                },
                Err(x) => {
                    stack.push(Frame::Array(items, d));
                    assert(forall|i: int| 0 <= i < stack@.len() ==> (#[trigger] stack@[i]).depth() <= n);
                assert(forall|i: int| 0 <= i < stack@.len() ==> (#[trigger] stack@[i]).depth() <= n);
            assert(forall|i: int| 0 <= i < stack@.len() ==> (#[trigger] stack@[i]).depth() <= n);
                    assert(frame_views(stack@) =~= s0);
                    finish_with(stack, Err(x))
                },
            }
        },
        Ok(XmlEvent::Eof) => {
            stack.push(Frame::Array(items, d));
            assert(forall|i: int| 0 <= i < stack@.len() ==> (#[trigger] stack@[i]).depth() <= n);
            assert(frame_views(stack@) =~= s0);
            finish_with(stack, Err(ParseError::UnexpectedEvent))
        },
        _ => {
            stack.push(Frame::Array(items, d));
            assert(forall|i: int| 0 <= i < stack@.len() ==> (#[trigger] stack@[i]).depth() <= n);
            assert(frame_views(stack@) =~= s0);
            ParserState { mode: Mode::Collection, stack }
        },
    }
}

/// Inside an open dictionary before a key (popped off `stack`, with pairs
/// `ps` so far, opened at depth `d`), on event `ev`.
#[verifier::spinoff_prover]
fn dict_step(stack: Vec<Frame>, ps: Vec<(Value, Value)>, d: usize, ev: Result<XmlEvent, quick_xml::Error>, Ghost(n): Ghost<nat>) -> (r: ParserState)
    requires
        forall|i: int| 0 <= i < stack@.len() ==> (#[trigger] stack@[i]).depth() <= n,
        d <= n,
        n < usize::MAX,
    ensures
        r@ == collection_step(
            SpecState { mode: SpecMode::Collection, stack: frame_views(stack@).push(SpecFrame::Dict(pair_views(ps@), d as nat)) },
            event_model(ev),
        ),
        r.depths_within(n + 1),
{
    let mut stack = stack;
    let ghost s0 = frame_views(stack@).push(SpecFrame::Dict(pair_views(ps@), d as nat));
    assert(s0.drop_last() =~= frame_views(stack@));
    match ev {
        Err(e) => {
            stack.push(Frame::Dict(ps, d));
            assert(frame_views(stack@) =~= s0);
            finish_with(stack, Err(ParseError::Xml(e)))
        },
        Ok(XmlEvent::End(name)) => {
            if name_is(&name, "dict") {
                proof {
                    crate::value::lemma_pairs_views(ps);
                }
                deliver_exec(stack, Value::Dictionary(ps))
            } else {
                stack.push(Frame::Dict(ps, d));
                assert(frame_views(stack@) =~= s0);
                ParserState { mode: Mode::Collection, stack }
            }
        },
        Ok(XmlEvent::Start(name)) => {
            stack.push(Frame::Dict(ps, d));
            assert(frame_views(stack@) =~= s0);
            if name_is(&name, "key") {
                ParserState { mode: Mode::Text(name, TextKind::Key, String::new(), d), stack }
            } else {
                ParserState { mode: Mode::Collection, stack }
            }
        },
        Ok(XmlEvent::Eof) => {
            stack.push(Frame::Dict(ps, d));
            assert(frame_views(stack@) =~= s0);
            finish_with(stack, Err(ParseError::UnexpectedEvent))
        },
        _ => {
            stack.push(Frame::Dict(ps, d));
            assert(frame_views(stack@) =~= s0);
            ParserState { mode: Mode::Collection, stack }
        },
    }
}

/// Inside the innermost open collection, on event `ev`.
fn collection_step_exec(st: ParserState, ev: Result<XmlEvent, quick_xml::Error>, Ghost(n): Ghost<nat>) -> (r: ParserState)
    requires
        st.depths_within(n),
        st.mode is Collection,
        n < usize::MAX,
    ensures
        r@ == collection_step(st@, event_model(ev)),
        r.depths_within(n + 1),
{
    let mut stack = st.stack;
    if stack.len() == 0 {
        return finish_with(stack, Err(ParseError::UnexpectedEvent));
    }
    let ghost s0 = stack@;
    let top = stack.pop().unwrap();
    assert(frame_views(stack@).push(top@) =~= frame_views(s0));
    assert(top == s0.last());
    assert(forall|i: int| 0 <= i < stack@.len() ==> stack@[i] == s0[i]);
    match top {
        Frame::Array(items, d) => array_step(stack, items, d, ev, Ghost(n)),
        Frame::Dict(ps, d) => dict_step(stack, ps, d, ev, Ghost(n)),
        Frame::DictValue(ps, k, d) => {
            stack.push(Frame::DictValue(ps, k, d));
            assert(frame_views(stack@) =~= frame_views(s0));
            finish_with(stack, Err(ParseError::UnexpectedEvent))
        },
    }
}

/// Whether two names are the same bytes.
fn same_bytes(a: &Vec<u8>, b: &Vec<u8>) -> (r: bool)
    ensures
        r == (a@ == b@),
{
    if a.len() != b.len() {
        return false;
    }
    let mut k: usize = 0;
    while k < a.len()
        invariant
            k <= a@.len(),
            a@.len() == b@.len(),
            forall|j: int| 0 <= j < k ==> a@[j] == b@[j],
        decreases a@.len() - k,
    {
        if a[k] != b[k] {
            return false;
        }
        k = k + 1;
    }
    assert(a@ =~= b@);
    true
}

/// Inside a text element, on event `ev`.
#[verifier::spinoff_prover]
fn text_step<F: Fn(&str) -> Option<u64>>(
    stack: Vec<Frame>,
    tag: Vec<u8>,
    kind: TextKind,
    acc: String,
    d: usize,
    ev: Result<XmlEvent, quick_xml::Error>,
    parse_real_fn: &F,
    Ghost(n): Ghost<nat>,
) -> (r: ParserState)
    requires
        forall|s: &str| #[trigger] parse_real_fn.requires((s,)),
        forall|i: int| 0 <= i < stack@.len() ==> (#[trigger] stack@[i]).depth() <= n,
        d <= n,
        n < usize::MAX,
    ensures
        deterministic_parse(*parse_real_fn) ==> r@ == spec_step(
            SpecState { mode: SpecMode::Text(tag@, kind, acc@, d as nat), stack: frame_views(stack@) },
            event_model(ev),
            *parse_real_fn,
        ),
        r.depths_within(n + 1),
{
    let mut acc = acc;
    match ev {
        Err(e) => finish_with(stack, Err(ParseError::Xml(e))),
        Ok(XmlEvent::Text(Ok(t))) => {
            acc.append(t.as_str());
            ParserState { mode: Mode::Text(tag, kind, acc, d), stack }
        },
        Ok(XmlEvent::Text(Err(e))) => finish_with(stack, Err(ParseError::Xml(e))),
        Ok(XmlEvent::End(name)) => {
            if same_bytes(&name, &tag) {
                finish_exec(stack, kind, acc, parse_real_fn, Ghost(n))
            } else {
                finish_with(stack, Err(ParseError::UnexpectedEvent))
            }
        },
        Ok(XmlEvent::Comment) => ParserState { mode: Mode::Text(tag, kind, acc, d), stack },
        _ => finish_with(stack, Err(ParseError::UnexpectedEvent)),
    }
}

/// Reads one event `ev` in state `st` (reals read by `parse_real_fn`);
/// `n` bounds the depths held (it is the number of events read before).
#[verifier::spinoff_prover]
pub fn step<F: Fn(&str) -> Option<u64>>(st: ParserState, ev: Result<XmlEvent, quick_xml::Error>, parse_real_fn: &F, Ghost(n): Ghost<nat>) -> (r: ParserState)
    requires
        forall|s: &str| #[trigger] parse_real_fn.requires((s,)),
        st.depths_within(n),
        n < usize::MAX,
    ensures
        deterministic_parse(*parse_real_fn) ==> r@ == spec_step(st@, event_model(ev), *parse_real_fn),
        r.depths_within(n + 1),
{
    let ParserState { mode, stack } = st;
    match mode {
        Mode::Done(r) => ParserState { mode: Mode::Done(r), stack },
        Mode::Prolog => match ev {
            Err(e) => finish_with(stack, Err(ParseError::Xml(e))),
            Ok(XmlEvent::Start(name)) => {
                if name_is(&name, "plist") {
                    enter_value_exec(stack, 0)
                } else {
                    ParserState { mode: Mode::Prolog, stack }
                }
            },
            Ok(XmlEvent::Eof) => finish_with(stack, Err(ParseError::MissingPlistRoot)),
            _ => ParserState { mode: Mode::Prolog, stack },
        },
        Mode::Value(d) => match ev {
            Err(e) => finish_with(stack, Err(ParseError::Xml(e))),
            Ok(XmlEvent::Start(name)) => {
                let ghost sk = stack@;
                let r = start_element_exec(stack, name, d);
                assert forall|i: int| 0 <= i < r.stack@.len() implies (#[trigger] r.stack@[i]).depth() <= n + 1 by {
                    if i < sk.len() {
                        assert(r.stack@[i] == sk[i]);
                    }
                }
                r
            },
            Ok(XmlEvent::Empty(name)) => match parse_empty_name(&name) {
                Ok(v) => deliver_exec(stack, v),
                Err(x) => finish_with(stack, Err(x)),
            },
            Ok(XmlEvent::Text(_)) => ParserState { mode: Mode::Value(d), stack },
            Ok(XmlEvent::Comment) => ParserState { mode: Mode::Value(d), stack },
            _ => finish_with(stack, Err(ParseError::UnexpectedEvent)),
        },
        Mode::Collection => collection_step_exec(ParserState { mode: Mode::Collection, stack }, ev, Ghost(n)),
        Mode::Text(tag, kind, acc, d) => text_step(stack, tag, kind, acc, d, ev, parse_real_fn, Ghost(n)),
        Mode::EndOf(tag, b) => match ev {
            Err(e) => finish_with(stack, Err(ParseError::Xml(e))),
            Ok(XmlEvent::End(name)) => {
                if same_bytes(&name, &tag) {
                    deliver_exec(stack, Value::Bool(b))
                } else {
                    finish_with(stack, Err(ParseError::UnexpectedEvent))
                }
            },
            Ok(XmlEvent::Text(_)) => ParserState { mode: Mode::EndOf(tag, b), stack },
            Ok(XmlEvent::Comment) => ParserState { mode: Mode::EndOf(tag, b), stack },
            _ => finish_with(stack, Err(ParseError::UnexpectedEvent)),
        },
        Mode::Epilog(v) => match ev {
            Err(e) => finish_with(stack, Err(ParseError::Xml(e))),
            Ok(XmlEvent::End(name)) => {
                if name_is(&name, "plist") {
                    finish_with(stack, Ok(v))
                } else {
                    ParserState { mode: Mode::Epilog(v), stack }
                }
            },
            Ok(XmlEvent::Eof) => finish_with(stack, Ok(v)),
            _ => ParserState { mode: Mode::Epilog(v), stack },
        },
    }
}

/// Whether parsing has finished.
fn is_done(st: &ParserState) -> (b: bool)
    ensures
        b == (st.mode is Done),
{
    matches!(st.mode, Mode::Done(_))
}

/// Parses an XML property list from `input`; the text of each `<real>`,
/// trimmed, is read by `parse_real` (its bit pattern, or `None` when it is
/// not a number).  At most one event per input byte and one more are read.
pub fn parse<F: Fn(&str) -> Option<u64>>(input: &[u8], parse_real_fn: &F) -> (res: Result<Value, ParseError>)
    requires
        forall|s: &str| #[trigger] parse_real_fn.requires((s,)),
    ensures
        deterministic_parse(*parse_real_fn) ==> result_view(res) == spec_parse_xml(input@, *parse_real_fn),
{
    let ghost f = *parse_real_fn;
    let mut src = XmlSource::new(input);
    let mut st = ParserState { mode: Mode::Prolog, stack: Vec::new() };
    assert(frame_views(st.stack@) =~= Seq::<SpecFrame>::empty());
    let mut i: usize = 0;
    while !is_done(&st) && i <= input.len() && i < usize::MAX
        invariant
            forall|s: &str| #[trigger] parse_real_fn.requires((s,)),
            f == *parse_real_fn,
            src.input() == input@,
            src.count() == i,
            st.depths_within(i as nat),
            deterministic_parse(f) ==> spec_parse_xml(input@, f) == run(input@, i as nat, st@, f),
        decreases input@.len() + 1 - i,
    {
        let ev = src.next();
        st = step(st, ev, parse_real_fn, Ghost(i as nat));
        i = i + 1;
    }
    match st.mode {
        Mode::Done(r) => r,
        _ => Err(ParseError::UnexpectedEvent),
    }
}

} // verus!
