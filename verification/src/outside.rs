//! What is believed without proof: the calls into other crates, and into those parts of the standard
//! library that have no specification.
use vstd::prelude::*;

use compact_str::CompactString;
use crossbeam_channel::{Receiver, Sender};
use serde_json::Value;
use std::time::{Duration, Instant};

use crate::json;
use crate::json::{Doc, Json};

verus! {

/// The name of an entry, kept as a `CompactString`: names of up to 24 bytes take no allocation.
#[verifier::external_body]
pub struct Name {
    text: CompactString,
}

/// The characters a name holds.
pub uninterp spec fn name_chars(name: Name) -> Seq<char>;

impl Name {
    /// `CompactString::as_str`: the name as text.
    #[verifier::external_body]
    fn held(&self) -> (text: &str)
        ensures
            text@ == name_chars(*self),
    {
        self.text.as_str()
    }

    /// `CompactString::new`: a name that holds the characters of `text`.
    #[verifier::external_body]
    fn holding(text: &str) -> (name: Name)
        ensures
            name_chars(name) == text@,
    {
        Name { text: CompactString::new(text) }
    }

    /// The name as text.
    pub fn as_str(&self) -> (text: &str)
        ensures
            text@ == name_chars(*self),
    {
        self.held()
    }

    /// The name with the characters of `text`.
    pub fn new(text: &str) -> (name: Name)
        ensures
            name_chars(name) == text@,
    {
        Name::holding(text)
    }
}

impl From<&str> for Name {
    fn from(text: &str) -> (name: Name)
        ensures
            name_chars(name) == text@,
    {
        Name::new(text)
    }
}

impl vstd::std_specs::convert::FromSpecImpl<&str> for Name {
    open spec fn obeys_from_spec() -> bool {
        false
    }

    open spec fn from_spec(text: &str) -> Name {
        arbitrary()
    }
}

/// `serde_json::Value`, a parsed document. What it holds is told by `json_of`.
#[verifier::external_type_specification]
#[verifier::external_body]
pub struct ExValue(Value);

/// What a parsed document says.
pub uninterp spec fn json_of(value: Value) -> Json;

/// What `serde_json` makes of a text: the document, or a message.
pub uninterp spec fn json_parse(bytes: Seq<u8>) -> Result<Json, Seq<char>>;

/// The deepest nesting of arrays and objects that `serde_json` reads.
pub open spec fn max_depth() -> nat {
    127
}

/// `serde_json::from_slice` reads a JSON text. The result depends on the bytes alone. A text that
/// stands for a document by the rules of JSON as `json::spells` gives them, with a line end behind it,
/// and nested no deeper than the limit of 127, gives what the document says: arrays and objects hold what
/// stands in them, a string gives its characters with the escapes undone, and a number that fits 64 bits
/// gives its value.
#[verifier::external_body]
pub(crate) fn parse_json(bytes: &[u8]) -> (parsed: Result<Value, String>)
    ensures
        match parsed {
            Ok(value) => json_parse(bytes@) == Ok::<Json, Seq<char>>(json_of(value)),
            Err(why) => json_parse(bytes@) == Err::<Json, Seq<char>>(why@),
        },
        forall|t: Seq<char>, d: Doc|
            vstd::utf8::encode_utf8(t + seq!['\n']) == bytes@ && #[trigger] json::spells(t, d)
                && json::depth(d) <= max_depth() ==> parsed is Ok && json_of(parsed->Ok_0)
                == json::meaning(d),
{
    match serde_json::from_slice::<Value>(bytes) {
        Ok(value) => Ok(value),
        Err(e) => Err(e.to_string()),
    }
}

/// `Value::as_array`: the items of an array; nothing for any other document.
pub assume_specification[ Value::as_array ](value: &Value) -> (items: Option<&Vec<Value>>)
    ensures
        match json_of(*value) {
            Json::Array(all) => {
                &&& items is Some
                &&& items->0@.len() == all.len()
                &&& forall|k: int|
                    0 <= k < all.len() ==> json_of(#[trigger] items->0@[k]) == all[k]
            },
            _ => items is None,
        },
;

/// `Value::as_str`: the characters of a string; nothing for any other document.
pub assume_specification[ Value::as_str ](value: &Value) -> (s: Option<&str>)
    ensures
        match json_of(*value) {
            Json::Text(all) => s is Some && s->0@ == all,
            _ => s is None,
        },
;

/// `Value::as_u64`: the value of a number that is an unsigned integer of at most 64 bits.
pub assume_specification[ Value::as_u64 ](value: &Value) -> (n: Option<u64>)
    ensures
        n == match json_of(*value) {
            Json::Number(n) => n,
            _ => None,
        },
;

/// `Value::as_bool`: the value of a boolean; nothing for any other document.
pub assume_specification[ Value::as_bool ](value: &Value) -> (b: Option<bool>)
    ensures
        b == match json_of(*value) {
            Json::Bool(b) => Some(b),
            _ => None,
        },
;

/// `Value::get` with a string: the field of an object that has this name; nothing if there is none,
/// or for any other document.
#[verifier::external_body]
pub(crate) fn json_field<'a>(value: &'a Value, key: &str) -> (field: Option<&'a Value>)
    ensures
        match json_of(*value) {
            Json::Object(fields) => if fields.contains_key(key@) {
                field is Some && json_of(*field->0) == fields[key@]
            } else {
                field is None
            },
            _ => field is None,
        },
{
    value.get(key)
}

/// The receiving end of a channel. Nothing is said of what is in it.
#[verifier::external_type_specification]
#[verifier::external_body]
#[verifier::reject_recursive_types(T)]
pub struct ExReceiver<T>(Receiver<T>);

/// The sending end of a channel.
#[verifier::external_type_specification]
#[verifier::external_body]
#[verifier::reject_recursive_types(T)]
pub struct ExSender<T>(Sender<T>);

/// A moment in time.
#[verifier::external_type_specification]
#[verifier::external_body]
pub struct ExInstant(Instant);

/// An error of an input or output operation.
#[verifier::external_type_specification]
#[verifier::external_body]
pub struct ExIoError(std::io::Error);

/// `crossbeam_channel::unbounded`: the two ends of a new channel. What goes through it depends on
/// who holds its ends, so nothing is said of it.
pub assume_specification<T>[ crossbeam_channel::unbounded::<T> ]() -> (ends: (Sender<T>, Receiver<T>))
;

/// `Sender::send`: hand a message to the channel. If nobody listens any more the message is dropped. An
/// unbounded channel, the only kind made here, takes it at once; one with a capacity that is used up
/// would make the call wait for room. What a channel holds is not modelled, so nothing is said of it.
#[verifier::external_body]
pub(crate) fn send<T>(to: &Sender<T>, message: T) {
    let _ = to.send(message);
}

/// What a receiver had to offer.
pub enum Polled<T> {
    /// The next message.
    Ready(T),
    /// No message yet.
    Empty,
    /// No message any more: every sender is gone.
    Closed,
}

/// `Receiver::try_recv`: the next message, if there is one already. What comes depends on the other
/// end of the channel, so nothing is said of it.
#[verifier::external_body]
pub(crate) fn poll<T>(from: &Receiver<T>) -> (polled: Polled<T>) {
    match from.try_recv() {
        Ok(message) => Polled::Ready(message),
        Err(crossbeam_channel::TryRecvError::Empty) => Polled::Empty,
        Err(crossbeam_channel::TryRecvError::Disconnected) => Polled::Closed,
    }
}

/// The `Display` text of an I/O error. The platform words it, so nothing is said of it.
#[verifier::external_body]
pub(crate) fn error_text(e: &std::io::Error) -> (words: String) {
    e.to_string()
}

/// `Instant::now`: the present moment. Nothing is said of it.
pub assume_specification[ Instant::now ]() -> (now: Instant)
;

/// `Instant::elapsed`: how long ago a moment was. It depends on the time of the call, so nothing is
/// said of it.
pub assume_specification[ Instant::elapsed ](started: &Instant) -> (passed: Duration)
;

/// `Duration::as_secs`: the whole seconds of a time span. What a time span holds is not looked into, so
/// nothing is said of them.
pub assume_specification[ Duration::as_secs ](passed: &Duration) -> (secs: u64)
;

/// What `str::to_lowercase` makes of a text.
pub uninterp spec fn lowercase_of(s: Seq<char>) -> Seq<char>;

/// `str::to_lowercase`: the lower-case equivalent of a text, by the Unicode properties of its
/// characters. It depends on the text alone.
#[verifier::external_body]
pub(crate) fn to_lowercase(s: &str) -> (lower: String)
    ensures
        lower@ == lowercase_of(s@),
{
    s.to_lowercase()
}

/// What `Line::width` gives for a line of the given pieces.
pub uninterp spec fn columns_of(pieces: Seq<Seq<char>>) -> nat;

/// `ratatui::text::Line::width`: the columns that a line takes on a terminal, by the Unicode widths of
/// the characters of its pieces. It depends on the pieces alone.
#[verifier::external_body]
pub(crate) fn line_width(pieces: &Vec<&str>) -> (columns: usize)
    ensures
        columns == columns_of(Seq::new(pieces@.len(), |k: int| pieces@[k]@)),
{
    let spans: Vec<ratatui::text::Span> = pieces.iter().map(|p| ratatui::text::Span::raw(*p)).collect();
    ratatui::text::Line::from(spans).width()
}

/// A part of the screen.
#[derive(Clone, Copy, PartialEq, Eq, Structural, Debug)]
pub struct Area {
    pub x: u16,
    pub y: u16,
    pub width: u16,
    pub height: u16,
}

/// The part of a length that keeps its end within 16 bits.
pub open spec fn within(start: u16, length: u16) -> int {
    if start + length <= u16::MAX {
        length as int
    } else {
        u16::MAX - start
    }
}

/// The smaller of two lengths.
pub open spec fn at_most(length: int, room: int) -> int {
    if length < room {
        length
    } else {
        room
    }
}

/// `ratatui::layout::Layout::areas` on a vertical layout with one length, centred: the strip of the
/// given height in the middle of an area, as far as the area has room for it. A row that cannot be
/// shared out evenly is left above. `Rect::new` cuts off what lies beyond 16 bits.
#[verifier::external_body]
pub(crate) fn centre_rows(area: Area, rows: u16) -> (strip: Area)
    ensures
        strip.x == area.x,
        strip.width == within(area.x, area.width),
        strip.height == at_most(rows as int, within(area.y, area.height)),
        strip.y == area.y + (within(area.y, area.height) - strip.height + 1) / 2,
{
    let whole = ratatui::layout::Rect::new(area.x, area.y, area.width, area.height);
    let [r] = ratatui::layout::Layout::vertical([ratatui::layout::Constraint::Length(rows)]).flex(
        ratatui::layout::Flex::Center,
    ).areas(whole);
    Area { x: r.x, y: r.y, width: r.width, height: r.height }
}

/// `ratatui::layout::Layout::areas` on a horizontal layout with one length, centred: the strip of the
/// given width in the middle of an area, as far as the area has room for it. A column that cannot be
/// shared out evenly is left on the left. `Rect::new` cuts off what lies beyond 16 bits.
#[verifier::external_body]
pub(crate) fn centre_columns(area: Area, columns: u16) -> (strip: Area)
    ensures
        strip.y == area.y,
        strip.height == within(area.y, area.height),
        strip.width == at_most(columns as int, within(area.x, area.width)),
        strip.x == area.x + (within(area.x, area.width) - strip.width + 1) / 2,
{
    let whole = ratatui::layout::Rect::new(area.x, area.y, area.width, area.height);
    let [r] = ratatui::layout::Layout::horizontal([ratatui::layout::Constraint::Length(columns)]).flex(
        ratatui::layout::Flex::Center,
    ).areas(whole);
    Area { x: r.x, y: r.y, width: r.width, height: r.height }
}

} // verus!
