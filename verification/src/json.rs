//! JSON documents as plain values: what they hold, how they are read and how
//! they are built.

use crate::hexes::{hex_char, hex_digit_text};
use crate::text::{chars_of, decimal, decimal_text, same_text};
use vstd::prelude::*;

verus! {

/// A JSON document.
///
/// A number is kept as the 64-bit integer that it is; one that is not a
/// 64-bit integer (a fraction, an exponent, a longer integer) keeps its text.
/// The members of an object keep the order in which they were written.
#[derive(Debug, PartialEq, Eq)]
pub enum Json {
    Null,
    Bool(bool),
    Unsigned(u64),
    Negative(i64),
    Decimal(String),
    Text(String),
    Array(Vec<Json>),
    Object(Vec<(String, Json)>),
}

/// What a JSON document holds.
pub ghost enum JsonView {
    Null,
    Bool(bool),
    Unsigned(u64),
    Negative(i64),
    Decimal(Seq<char>),
    Text(Seq<char>),
    Array(Seq<JsonView>),
    Object(Seq<(Seq<char>, JsonView)>),
}

impl Json {
    /// What the document holds.
    pub open spec fn model(&self) -> JsonView
        decreases self,
    {
        match self {
            Json::Null => JsonView::Null,
            Json::Bool(b) => JsonView::Bool(*b),
            Json::Unsigned(n) => JsonView::Unsigned(*n),
            Json::Negative(n) => JsonView::Negative(*n),
            Json::Decimal(s) => JsonView::Decimal(s@),
            Json::Text(s) => JsonView::Text(s@),
            Json::Array(items) => JsonView::Array(
                Seq::new(
                    items@.len(),
                    |i: int| if 0 <= i < items@.len() { items@[i].model() } else { JsonView::Null },
                ),
            ),
            Json::Object(fields) => JsonView::Object(
                Seq::new(
                    fields@.len(),
                    |i: int| if 0 <= i < fields@.len() {
                        (fields@[i].0@, fields@[i].1.model())
                    } else {
                        (Seq::empty(), JsonView::Null)
                    },
                ),
            ),
        }
    }
}

impl View for Json {
    type V = JsonView;

    open spec fn view(&self) -> JsonView {
        self.model()
    }
}

/// What a list of documents holds.
pub open spec fn items_view(items: Seq<Json>) -> Seq<JsonView> {
    Seq::new(items.len(), |i: int| items[i]@)
}

/// What a list of object members holds.
pub open spec fn fields_view(fields: Seq<(String, Json)>) -> Seq<(Seq<char>, JsonView)> {
    Seq::new(fields.len(), |i: int| (fields[i].0@, fields[i].1@))
}

/// The member of that name: the first, where a name occurs twice.
pub open spec fn lookup(fields: Seq<(Seq<char>, JsonView)>, key: Seq<char>) -> Option<JsonView>
    decreases fields.len(),
{
    if fields.len() == 0 {
        None
    } else if fields[0].0 == key {
        Some(fields[0].1)
    } else {
        lookup(fields.skip(1), key)
    }
}

impl JsonView {
    /// The member of that name, where the document is an object that has one.
    pub open spec fn get(self, key: Seq<char>) -> Option<JsonView> {
        match self {
            JsonView::Object(fields) => lookup(fields, key),
            _ => None,
        }
    }

    /// The member at the end of a path of two names.
    pub open spec fn get2(self, outer: Seq<char>, inner: Seq<char>) -> Option<JsonView> {
        match self.get(outer) {
            Some(v) => v.get(inner),
            None => None,
        }
    }

    /// The item at an index, where the document is an array that has one.
    pub open spec fn item(self, i: int) -> Option<JsonView> {
        match self {
            JsonView::Array(items) => if 0 <= i < items.len() {
                Some(items[i])
            } else {
                None
            },
            _ => None,
        }
    }

    /// The text that the document is.
    pub open spec fn as_str(self) -> Option<Seq<char>> {
        match self {
            JsonView::Text(s) => Some(s),
            _ => None,
        }
    }

    /// The natural number below 2^64 that the document is.
    pub open spec fn as_u64(self) -> Option<u64> {
        match self {
            JsonView::Unsigned(n) => Some(n),
            _ => None,
        }
    }

    /// The signed 64-bit number that the document is.
    pub open spec fn as_i64(self) -> Option<i64> {
        match self {
            JsonView::Unsigned(n) => if n <= i64::MAX {
                Some(n as i64)
            } else {
                None
            },
            JsonView::Negative(n) => Some(n),
            _ => None,
        }
    }

    /// The signed 32-bit number that the document is.
    pub open spec fn as_i32(self) -> Option<i32> {
        match self.as_i64() {
            Some(n) => if i32::MIN <= n <= i32::MAX {
                Some(n as i32)
            } else {
                None
            },
            None => None,
        }
    }

    /// The items of the array that the document is.
    pub open spec fn as_array(self) -> Option<Seq<JsonView>> {
        match self {
            JsonView::Array(items) => Some(items),
            _ => None,
        }
    }

    /// The members of the object that the document is.
    pub open spec fn as_object(self) -> Option<Seq<(Seq<char>, JsonView)>> {
        match self {
            JsonView::Object(fields) => Some(fields),
            _ => None,
        }
    }
}

/// What a reading of an optional text gives.
pub open spec fn opt_str(v: Option<JsonView>) -> Option<Seq<char>> {
    match v {
        Some(j) => j.as_str(),
        None => None,
    }
}

/// What a reading of an optional natural number gives.
pub open spec fn opt_u64(v: Option<JsonView>) -> Option<u64> {
    match v {
        Some(j) => j.as_u64(),
        None => None,
    }
}

/// What a reading of an optional array gives.
pub open spec fn opt_array(v: Option<JsonView>) -> Option<Seq<JsonView>> {
    match v {
        Some(j) => j.as_array(),
        None => None,
    }
}

/// What a reading of an optional object gives.
pub open spec fn opt_object(v: Option<JsonView>) -> Option<Seq<(Seq<char>, JsonView)>> {
    match v {
        Some(j) => j.as_object(),
        None => None,
    }
}

/// What an optional borrowed document holds.
pub open spec fn opt_view(v: Option<&Json>) -> Option<JsonView> {
    match v {
        Some(j) => Some(j@),
        None => None,
    }
}

/// What an optional borrowed text holds.
pub open spec fn opt_text(v: Option<&str>) -> Option<Seq<char>> {
    match v {
        Some(s) => Some(s@),
        None => None,
    }
}

/// What an array or an object holds is what its parts hold.
pub broadcast proof fn lemma_parts_view(doc: Json)
    ensures
        doc matches Json::Array(items) ==> doc@ == JsonView::Array(items_view(items@)),
        doc matches Json::Object(fields) ==> #[trigger] doc@ == JsonView::Object(
            fields_view(fields@),
        ),
{
    match doc {
        Json::Array(items) => {
            assert(doc.model()->Array_0 =~= items_view(items@));
        },
        Json::Object(fields) => {
            assert(doc.model()->Object_0 =~= fields_view(fields@));
        },
        _ => {},
    }
}

/// Searching on behind the members that do not have the name.
proof fn lemma_lookup_skip(fields: Seq<(Seq<char>, JsonView)>, key: Seq<char>, n: int)
    requires
        0 <= n <= fields.len(),
        forall|i: int| 0 <= i < n ==> (#[trigger] fields[i]).0 != key,
    ensures
        lookup(fields, key) == lookup(fields.skip(n), key),
    decreases n,
{
    if n == 0 {
        assert(fields.skip(0) =~= fields);
    } else {
        let rest = fields.skip(1);
        assert forall|i: int| 0 <= i < n - 1 implies (#[trigger] rest[i]).0 != key by {
            assert(rest[i] == fields[i + 1]);
        }
        lemma_lookup_skip(rest, key, n - 1);
        assert(rest.skip(n - 1) =~= fields.skip(n));
    }
}

/// Finds the member of that name among the members of an object.
pub(crate) fn find<'a>(fields: &'a Vec<(String, Json)>, key: &str) -> (r: Option<&'a Json>)
    ensures
        opt_view(r) == lookup(fields_view(fields@), key@),
{
    let ghost view = fields_view(fields@);
    let mut i: usize = 0;
    while i < fields.len()
        invariant
            i <= fields@.len(),
            view == fields_view(fields@),
            forall|j: int| 0 <= j < i ==> (#[trigger] view[j]).0 != key@,
        decreases fields@.len() - i,
    {
        if same_text(fields[i].0.as_str(), key) {
            proof {
                lemma_lookup_skip(view, key@, i as int);
                assert(view.skip(i as int)[0] == view[i as int]);
            }
            return Some(&fields[i].1);
        }
        i = i + 1;
    }
    proof {
        lemma_lookup_skip(view, key@, i as int);
    }
    None
}

impl Json {
    /// The member of that name, where the document is an object that has one.
    pub fn get(&self, key: &str) -> (r: Option<&Json>)
        ensures
            opt_view(r) == self@.get(key@),
    {
        broadcast use lemma_parts_view;

        match self {
            Json::Object(fields) => find(fields, key),
            _ => None,
        }
    }

    /// The member at the end of a path of two names.
    pub fn get2(&self, outer: &str, inner: &str) -> (r: Option<&Json>)
        ensures
            opt_view(r) == self@.get2(outer@, inner@),
    {
        match self.get(outer) {
            Some(v) => v.get(inner),
            None => None,
        }
    }

    /// The item at an index, where the document is an array that has one.
    pub fn item(&self, i: usize) -> (r: Option<&Json>)
        ensures
            opt_view(r) == self@.item(i as int),
    {
        broadcast use lemma_parts_view;

        match self {
            Json::Array(items) => if i < items.len() {
                Some(&items[i])
            } else {
                None
            },
            _ => None,
        }
    }

    /// The text that the document is.
    pub fn as_str(&self) -> (r: Option<&str>)
        ensures
            opt_text(r) == self@.as_str(),
    {
        match self {
            Json::Text(s) => Some(s.as_str()),
            _ => None,
        }
    }

    /// The natural number below 2^64 that the document is.
    pub fn as_u64(&self) -> (r: Option<u64>)
        ensures
            r == self@.as_u64(),
    {
        match self {
            Json::Unsigned(n) => Some(*n),
            _ => None,
        }
    }

    /// The signed 64-bit number that the document is.
    pub fn as_i64(&self) -> (r: Option<i64>)
        ensures
            r == self@.as_i64(),
    {
        match self {
            Json::Unsigned(n) => if *n <= 0x7fff_ffff_ffff_ffff {
                Some(*n as i64)
            } else {
                None
            },
            Json::Negative(n) => Some(*n),
            _ => None,
        }
    }

    /// The signed 32-bit number that the document is.
    pub fn as_i32(&self) -> (r: Option<i32>)
        ensures
            r == self@.as_i32(),
    {
        match self.as_i64() {
            Some(n) => if -0x8000_0000 <= n && n <= 0x7fff_ffff {
                Some(n as i32)
            } else {
                None
            },
            None => None,
        }
    }

    /// The items of the array that the document is.
    pub fn as_array(&self) -> (r: Option<&Vec<Json>>)
        ensures
            (match r {
                Some(items) => Some(items_view(items@)),
                None => None,
            }) == self@.as_array(),
    {
        broadcast use lemma_parts_view;

        match self {
            Json::Array(items) => Some(items),
            _ => None,
        }
    }

    /// The members of the object that the document is.
    pub fn as_object(&self) -> (r: Option<&Vec<(String, Json)>>)
        ensures
            (match r {
                Some(fields) => Some(fields_view(fields@)),
                None => None,
            }) == self@.as_object(),
    {
        broadcast use lemma_parts_view;

        match self {
            Json::Object(fields) => Some(fields),
            _ => None,
        }
    }

    /// A document that holds the same.
    pub fn duplicate(&self) -> (r: Json)
        ensures
            r@ == self@,
        decreases self,
    {
        broadcast use lemma_parts_view;

        match self {
            Json::Null => Json::Null,
            Json::Bool(b) => Json::Bool(*b),
            Json::Unsigned(n) => Json::Unsigned(*n),
            Json::Negative(n) => Json::Negative(*n),
            Json::Decimal(s) => Json::Decimal(s.clone()),
            Json::Text(s) => Json::Text(s.clone()),
            Json::Array(items) => {
                let mut out: Vec<Json> = Vec::new();
                let mut i: usize = 0;
                while i < items.len()
                    invariant
                        i <= items@.len(),
                        decreases_to!(self => items@),
                        items_view(out@) == items_view(items@).take(i as int),
                    decreases items@.len() - i,
                {
                    let item: Json = items[i].duplicate();
                    let ghost before = out@;
                    out.push(item);
                    assert(items_view(out@) =~= items_view(before).push(item@));
                    i = i + 1;
                }
                assert(items_view(items@).take(i as int) =~= items_view(items@));
                Json::Array(out)
            },
            Json::Object(fields) => {
                let mut out: Vec<(String, Json)> = Vec::new();
                let mut i: usize = 0;
                while i < fields.len()
                    invariant
                        i <= fields@.len(),
                        decreases_to!(self => fields@),
                        fields_view(out@) == fields_view(fields@).take(i as int),
                    decreases fields@.len() - i,
                {
                    let name: String = fields[i].0.clone();
                    let value: Json = fields[i].1.duplicate();
                    let ghost before = out@;
                    out.push((name, value));
                    assert(fields_view(out@) =~= fields_view(before).push((name@, value@)));
                    i = i + 1;
                }
                assert(fields_view(fields@).take(i as int) =~= fields_view(fields@));
                Json::Object(out)
            },
        }
    }

    /// A text as a document.
    pub fn text(s: &str) -> (r: Json)
        ensures
            r@ == JsonView::Text(s@),
    {
        Json::Text(s.to_owned())
    }
}

/// Adds a member at the end of an object's members.
pub fn put(fields: &mut Vec<(String, Json)>, key: &str, value: Json)
    ensures
        fields_view(final(fields)@) == fields_view(old(fields)@).push((key@, value@)),
{
    fields.push((key.to_owned(), value));
    assert(fields_view(fields@) =~= fields_view(old(fields)@).push((key@, value@)));
}

/// The object with no members yet.
pub fn no_fields() -> (r: Vec<(String, Json)>)
    ensures
        fields_view(r@) == Seq::<(Seq<char>, JsonView)>::empty(),
{
    let r: Vec<(String, Json)> = Vec::new();
    assert(fields_view(r@) =~= Seq::empty());
    r
}

/// The object that has these members.
pub fn object(fields: Vec<(String, Json)>) -> (r: Json)
    ensures
        r@ == JsonView::Object(fields_view(fields@)),
{
    broadcast use lemma_parts_view;

    Json::Object(fields)
}

/// The array that has these items.
pub fn array(items: Vec<Json>) -> (r: Json)
    ensures
        r@ == JsonView::Array(items_view(items@)),
{
    broadcast use lemma_parts_view;

    Json::Array(items)
}

// -------------------------------------------------------------------- texts

/// How a character is written inside a quoted text: quotes, backslashes and
/// control characters are escaped.
pub open spec fn escaped_char(c: char) -> Seq<char> {
    if c == '"' {
        seq!['\\', '"']
    } else if c == '\\' {
        seq!['\\', '\\']
    } else if (c as u32) < 0x20 {
        seq!['\\', 'u', '0', '0', hex_char((c as u32 / 16) as u8), hex_char((c as u32 % 16) as u8)]
    } else {
        seq![c]
    }
}

/// The characters of a text as they are written between quotes.
pub open spec fn escaped(s: Seq<char>) -> Seq<char>
    decreases s.len(),
{
    if s.len() == 0 {
        Seq::empty()
    } else {
        escaped(s.drop_last()) + escaped_char(s.last())
    }
}

/// A text between quotes.
pub open spec fn quoted(s: Seq<char>) -> Seq<char> {
    "\""@ + escaped(s) + "\""@
}

/// A negative number; a zero that was written with a sign keeps it.
pub open spec fn negative_text(n: i64) -> Seq<char> {
    if n <= 0 {
        "-"@ + decimal((-n) as nat)
    } else {
        decimal(n as nat)
    }
}

/// Whether a text consists of characters that numbers are written with.
pub open spec fn number_like(s: Seq<char>) -> bool {
    s.len() > 0 && forall|i: int| 0 <= i < s.len() ==> number_char(#[trigger] s[i])
}

/// Whether numbers are written with a character.
pub open spec fn number_char(c: char) -> bool {
    ('0' <= c && c <= '9') || c == '+' || c == '-' || c == '.' || c == 'e' || c == 'E'
}

/// A document as JSON text, without blanks. A number that keeps its text is
/// written as that text, or as a text where it is not one of a number.
pub open spec fn json_text(doc: JsonView) -> Seq<char>
    decreases doc,
{
    match doc {
        JsonView::Null => "null"@,
        JsonView::Bool(b) => if b {
            "true"@
        } else {
            "false"@
        },
        JsonView::Unsigned(n) => decimal(n as nat),
        JsonView::Negative(n) => negative_text(n),
        JsonView::Decimal(s) => if number_like(s) {
            s
        } else {
            quoted(s)
        },
        JsonView::Text(s) => quoted(s),
        JsonView::Array(items) => "["@ + items_text(items) + "]"@,
        JsonView::Object(fields) => "{"@ + fields_text(fields) + "}"@,
    }
}

/// Documents as JSON texts with commas between them.
pub open spec fn items_text(items: Seq<JsonView>) -> Seq<char>
    decreases items,
{
    if items.len() == 0 {
        Seq::empty()
    } else if items.len() == 1 {
        json_text(items[0])
    } else {
        items_text(items.subrange(0, items.len() - 1)) + ","@ + json_text(items[items.len() - 1])
    }
}

/// Members as JSON texts with commas between them.
pub open spec fn fields_text(fields: Seq<(Seq<char>, JsonView)>) -> Seq<char>
    decreases fields,
{
    if fields.len() == 0 {
        Seq::empty()
    } else {
        let last = fields[fields.len() - 1];
        let member = quoted(last.0) + ":"@ + json_text(last.1);
        if fields.len() == 1 {
            member
        } else {
            fields_text(fields.subrange(0, fields.len() - 1)) + ","@ + member
        }
    }
}

/// Appends a character as it is written inside a quoted text, where that is
/// not the character itself.
fn write_escape(c: char, out: &mut String)
    requires
        c == '"' || c == '\\' || (c as u32) < 0x20,
    ensures
        final(out)@ == old(out)@ + escaped_char(c),
{
    proof {
        reveal_strlit("\\\"");
        reveal_strlit("\\\\");
        reveal_strlit("\\u00");
    }
    if c == '"' {
        out.append("\\\"");
    } else if c == '\\' {
        out.append("\\\\");
    } else {
        let code: u32 = c as u32;
        out.append("\\u00");
        out.append(hex_digit_text((code / 16) as u8));
        out.append(hex_digit_text((code % 16) as u8));
    }
    assert(out@ =~= old(out)@ + escaped_char(c));
}

/// Appends a text between quotes.
fn write_quoted(s: &str, out: &mut String)
    ensures
        final(out)@ == old(out)@ + quoted(s@),
{
    let cs: Vec<char> = chars_of(s);
    out.append("\"");
    let ghost head = out@;
    let mut start: usize = 0;
    let mut i: usize = 0;
    assert(s@.take(0) =~= Seq::empty());
    assert(out@ + s@.subrange(0, 0) =~= head + escaped(s@.take(0)));
    while i < cs.len()
        invariant
            start <= i <= cs@.len(),
            cs@ == s@,
            out@ + s@.subrange(start as int, i as int) == head + escaped(s@.take(i as int)),
        decreases cs@.len() - i,
    {
        let c: char = cs[i];
        let ghost past = s@.take(i as int);
        let ghost now = s@.take(i + 1);
        assert(now.drop_last() =~= past);
        assert(now.last() == c);
        if c == '"' || c == '\\' || (c as u32) < 0x20 {
            if start < i {
                out.append(s.substring_char(start, i));
            }
            assert(out@ =~= head + escaped(past));
            write_escape(c, out);
            start = i + 1;
            assert(out@ + s@.subrange(i + 1, i + 1) =~= head + escaped(now));
        } else {
            assert(s@.subrange(start as int, i + 1) =~= s@.subrange(start as int, i as int).push(
                c,
            ));
            assert(out@ + s@.subrange(start as int, i + 1) =~= head + escaped(past) + seq![c]);
            assert(head + escaped(past) + seq![c] =~= head + escaped(now));
        }
        i = i + 1;
    }
    assert(s@.take(i as int) =~= s@);
    if start < i {
        out.append(s.substring_char(start, i));
    }
    assert(out@ =~= head + escaped(s@));
    out.append("\"");
    assert(out@ =~= old(out)@ + quoted(s@));
}

/// Whether a text consists of characters that numbers are written with.
pub(crate) fn is_number_like(s: &str) -> (r: bool)
    ensures
        r == number_like(s@),
{
    let cs: Vec<char> = chars_of(s);
    let mut i: usize = 0;
    while i < cs.len()
        invariant
            i <= cs@.len(),
            cs@ == s@,
            forall|j: int| 0 <= j < i ==> number_char(#[trigger] s@[j]),
        decreases cs@.len() - i,
    {
        let c: char = cs[i];
        if !(('0' <= c && c <= '9') || c == '+' || c == '-' || c == '.' || c == 'e' || c == 'E') {
            assert(!number_char(s@[i as int]));
            return false;
        }
        i = i + 1;
    }
    cs.len() > 0
}

impl Json {
    /// Appends the document as JSON text, without blanks.
    fn write(&self, out: &mut String)
        ensures
            final(out)@ == old(out)@ + json_text(self@),
        decreases self,
    {
        broadcast use lemma_parts_view;

        match self {
            Json::Null => out.append("null"),
            Json::Bool(b) => if *b {
                out.append("true");
            } else {
                out.append("false");
            },
            Json::Unsigned(n) => out.append(decimal_text(*n as u128).as_str()),
            Json::Negative(n) => if *n <= 0 {
                out.append("-");
                out.append(decimal_text((-(*n as i128)) as u128).as_str());
                assert(out@ =~= old(out)@ + negative_text(*n));
            } else {
                out.append(decimal_text(*n as u128).as_str());
            },
            Json::Decimal(s) => if is_number_like(s.as_str()) {
                out.append(s.as_str());
            } else {
                write_quoted(s.as_str(), out);
            },
            Json::Text(s) => write_quoted(s.as_str(), out),
            Json::Array(items) => {
                let ghost view = items_view(items@);
                out.append("[");
                let ghost head = out@;
                let mut i: usize = 0;
                assert(view.take(0) =~= Seq::empty());
                assert(out@ =~= head + items_text(view.take(0)));
                while i < items.len()
                    invariant
                        i <= items@.len(),
                        decreases_to!(self => items@),
                        view == items_view(items@),
                        out@ == head + items_text(view.take(i as int)),
                    decreases items@.len() - i,
                {
                    let ghost now = view.take(i + 1);
                    assert(now.subrange(0, now.len() - 1) =~= view.take(i as int));
                    assert(now[now.len() - 1] == items@[i as int]@);
                    if i > 0 {
                        out.append(",");
                    }
                    items[i].write(out);
                    assert(out@ =~= head + items_text(now));
                    i = i + 1;
                }
                assert(view.take(i as int) =~= view);
                out.append("]");
                assert(out@ =~= old(out)@ + json_text(self@));
            },
            Json::Object(fields) => {
                let ghost view = fields_view(fields@);
                out.append("{");
                let ghost head = out@;
                let mut i: usize = 0;
                assert(view.take(0) =~= Seq::empty());
                assert(out@ =~= head + fields_text(view.take(0)));
                while i < fields.len()
                    invariant
                        i <= fields@.len(),
                        decreases_to!(self => fields@),
                        view == fields_view(fields@),
                        out@ == head + fields_text(view.take(i as int)),
                    decreases fields@.len() - i,
                {
                    let ghost now = view.take(i + 1);
                    assert(now.subrange(0, now.len() - 1) =~= view.take(i as int));
                    assert(now[now.len() - 1] == (fields@[i as int].0@, fields@[i as int].1@));
                    if i > 0 {
                        out.append(",");
                    }
                    write_quoted(fields[i].0.as_str(), out);
                    out.append(":");
                    fields[i].1.write(out);
                    assert(out@ =~= head + fields_text(now));
                    i = i + 1;
                }
                assert(view.take(i as int) =~= view);
                out.append("}");
                assert(out@ =~= old(out)@ + json_text(self@));
            },
        }
    }

    /// The document as JSON text, without blanks.
    pub fn to_text(&self) -> (r: String)
        ensures
            r@ == json_text(self@),
    {
        let mut out: String = String::new();
        self.write(&mut out);
        assert(out@ =~= json_text(self@));
        out
    }
}

/// A member before which no other has its name is the one that is found.
pub proof fn lemma_lookup_at(fields: Seq<(Seq<char>, JsonView)>, key: Seq<char>, i: int)
    requires
        0 <= i < fields.len(),
        fields[i].0 == key,
        forall|j: int| 0 <= j < i ==> (#[trigger] fields[j]).0 != key,
    ensures
        lookup(fields, key) == Some(fields[i].1),
    decreases i,
{
    if i > 0 {
        assert(fields[0].0 != key);
        assert forall|j: int| 0 <= j < i - 1 implies (#[trigger] fields.skip(1)[j]).0 != key by {
            assert(fields.skip(1)[j] == fields[j + 1]);
        }
        lemma_lookup_at(fields.skip(1), key, i - 1);
    }
}

/// A name that no member has finds nothing.
pub proof fn lemma_lookup_none(fields: Seq<(Seq<char>, JsonView)>, key: Seq<char>)
    requires
        forall|j: int| 0 <= j < fields.len() ==> (#[trigger] fields[j]).0 != key,
    ensures
        lookup(fields, key) is None,
    decreases fields.len(),
{
    if fields.len() > 0 {
        assert(fields[0].0 != key);
        assert forall|j: int| 0 <= j < fields.len() - 1 implies (#[trigger] fields.skip(1)[j]).0
            != key by {
            assert(fields.skip(1)[j] == fields[j + 1]);
        }
        lemma_lookup_none(fields.skip(1), key);
    }
}

/// A document is a signed 32-bit number just where it is an integer between
/// -2^31 and 2^31 - 1, and then that integer.
pub proof fn law_numbers(doc: JsonView)
    ensures
        doc.as_i32() matches Some(v) ==> (doc matches JsonView::Unsigned(n) && v as int == n as int)
            || (doc matches JsonView::Negative(n) && v as int == n as int),
        doc matches JsonView::Unsigned(n) ==> (doc.as_i32() is Some <==> n <= 0x7fff_ffff),
        doc matches JsonView::Negative(n) ==> (doc.as_i32() is Some <==> -0x8000_0000 <= n
            <= 0x7fff_ffff),
        doc.as_u64() matches Some(v) ==> doc == JsonView::Unsigned(v),
        doc is Unsigned ==> doc.as_u64() is Some,
{
}

/// A member is found under its name in an object just where one has that name,
/// and it is the first such; a document that is no object has no members.
pub proof fn law_members(doc: JsonView, key: Seq<char>)
    ensures
        doc.get(key) is Some <==> (doc matches JsonView::Object(fields) && exists|i: int|
            0 <= i < fields.len() && (#[trigger] fields[i]).0 == key),
        doc.get(key) matches Some(value) ==> exists|i: int|
            #![trigger doc->Object_0[i]]
            0 <= i < doc->Object_0.len() && doc->Object_0[i] == (key, value) && forall|j: int|
                0 <= j < i ==> (#[trigger] doc->Object_0[j]).0 != key,
{
    if let JsonView::Object(fields) = doc {
        lemma_first_member(fields, key, 0);
    }
}

/// The first member of a name, from a place on before which none has it.
proof fn lemma_first_member(fields: Seq<(Seq<char>, JsonView)>, key: Seq<char>, from: int)
    requires
        0 <= from <= fields.len(),
        forall|j: int| 0 <= j < from ==> (#[trigger] fields[j]).0 != key,
    ensures
        match lookup(fields, key) {
            Some(value) => exists|i: int|
                #![trigger fields[i]]
                0 <= i < fields.len() && fields[i] == (key, value) && forall|j: int|
                    0 <= j < i ==> (#[trigger] fields[j]).0 != key,
            None => forall|j: int| 0 <= j < fields.len() ==> (#[trigger] fields[j]).0 != key,
        },
    decreases fields.len() - from,
{
    if from == fields.len() {
        lemma_lookup_none(fields, key);
    } else if fields[from].0 == key {
        lemma_lookup_at(fields, key, from);
        assert(fields[from] == (key, fields[from].1));
    } else {
        lemma_first_member(fields, key, from + 1);
    }
}

/// A path of two names leads from member to member; an index finds the item of
/// an array that stands there.
pub proof fn law_paths(doc: JsonView, outer: Seq<char>, inner: Seq<char>, i: int)
    ensures
        doc.get(outer) is None ==> doc.get2(outer, inner) is None,
        doc.get(outer) matches Some(part) ==> doc.get2(outer, inner) == part.get(inner),
        doc.item(i) is Some <==> (doc matches JsonView::Array(items) && 0 <= i < items.len()),
        doc.item(i) matches Some(item) ==> item == doc->Array_0[i],
{
}

/// A number that is kept as a text is written as that text where it consists of
/// digits, signs, points and exponents, and as a quoted text otherwise; a zero
/// that was written with a sign keeps it.
pub proof fn law_number_text(s: Seq<char>, n: i64)
    ensures
        json_text(JsonView::Decimal(s)) == if s.len() > 0 && forall|i: int|
            0 <= i < s.len() ==> {
                let code = #[trigger] s[i] as int;
                0x30 <= code <= 0x39 || code == 0x2b || code == 0x2d || code == 0x2e || code == 0x65
                    || code == 0x45
            } {
            s
        } else {
            quoted(s)
        },
        n == 0 ==> json_text(JsonView::Negative(n)) == seq!['-', '0'],
        n > 0 ==> json_text(JsonView::Negative(n)) == decimal(n as nat),
{
    reveal_strlit("-");
    if n == 0 {
        assert(json_text(JsonView::Negative(n)) =~= seq!['-', '0']);
    }
    assert forall|i: int| 0 <= i < s.len() implies (number_char(#[trigger] s[i]) <==> {
        let code = s[i] as int;
        0x30 <= code <= 0x39 || code == 0x2b || code == 0x2d || code == 0x2e || code == 0x65 || code
            == 0x45
    }) by {}
}

/// A quoted text begins and ends with a quote; one more character stands before
/// the last quote as it is, or escaped where it is a quote, a backslash or a
/// control character.
pub proof fn law_quoted(s: Seq<char>, c: char)
    ensures
        quoted(Seq::empty()) == seq!['"', '"'],
        quoted(s).len() >= 2,
        quoted(s).last() == '"',
        quoted(s.push(c)) == quoted(s).drop_last() + (if c == '"' || c == '\\' {
            seq!['\\', c]
        } else if (c as u32) < 0x10 {
            seq!['\\', 'u', '0', '0', '0', hex_char(c as u8)]
        } else if (c as u32) < 0x20 {
            seq!['\\', 'u', '0', '0', '1', hex_char((c as u32 - 0x10) as u8)]
        } else {
            seq![c]
        }) + seq!['"'],
{
    reveal_strlit("\"");
    assert(quoted(Seq::empty()) =~= seq!['"', '"']);
    assert(s.push(c).drop_last() =~= s);
    assert(escaped(s.push(c)) == escaped(s) + escaped_char(c));
    assert(quoted(s).drop_last() =~= "\""@ + escaped(s));
    if (c as u32) < 0x10 {
        assert(hex_char(0) == '0');
    } else if (c as u32) < 0x20 {
        assert(hex_char(1) == '1');
    }
    assert(quoted(s.push(c)) =~= quoted(s).drop_last() + escaped_char(c) + seq!['"']);
}

/// Scalars are written by their JSON names and numerals; an array or object
/// with one more part has it behind the others, a comma between, before the
/// closing bracket.
pub proof fn law_json_text(
    doc: JsonView,
    items: Seq<JsonView>,
    fields: Seq<(Seq<char>, JsonView)>,
    key: Seq<char>,
)
    ensures
        json_text(JsonView::Null) == "null"@,
        json_text(JsonView::Bool(true)) == "true"@,
        json_text(JsonView::Bool(false)) == "false"@,
        doc matches JsonView::Unsigned(n) ==> json_text(doc) == decimal(n as nat),
        doc matches JsonView::Negative(n) ==> (n < 0 ==> json_text(doc) == seq!['-'] + decimal(
            (-n) as nat,
        )),
        doc matches JsonView::Text(text) ==> json_text(doc) == quoted(text),
        json_text(JsonView::Array(Seq::empty())) == seq!['[', ']'],
        json_text(JsonView::Array(seq![doc])) == seq!['['] + json_text(doc) + seq![']'],
        items.len() > 0 ==> json_text(JsonView::Array(items.push(doc))) == json_text(
            JsonView::Array(items),
        ).drop_last() + seq![','] + json_text(doc) + seq![']'],
        json_text(JsonView::Object(Seq::empty())) == seq!['{', '}'],
        json_text(JsonView::Object(seq![(key, doc)])) == seq!['{'] + quoted(key) + seq![':']
            + json_text(doc) + seq!['}'],
        fields.len() > 0 ==> json_text(JsonView::Object(fields.push((key, doc)))) == json_text(
            JsonView::Object(fields),
        ).drop_last() + seq![','] + quoted(key) + seq![':'] + json_text(doc) + seq!['}'],
{
    reveal_strlit("[");
    reveal_strlit("]");
    reveal_strlit("{");
    reveal_strlit("}");
    reveal_strlit(",");
    reveal_strlit(":");
    reveal_strlit("-");
    reveal_with_fuel(json_text, 2);
    reveal_with_fuel(items_text, 2);
    reveal_with_fuel(fields_text, 2);
    assert("["@ =~= seq!['['] && "]"@ =~= seq![']'] && "{"@ =~= seq!['{'] && "}"@ =~= seq!['}']);
    assert(","@ =~= seq![','] && ":"@ =~= seq![':'] && "-"@ =~= seq!['-']);
    assert(json_text(JsonView::Array(Seq::empty())) =~= seq!['[', ']']);
    assert(json_text(JsonView::Object(Seq::empty())) =~= seq!['{', '}']);
    let now = items.push(doc);
    assert(now.subrange(0, now.len() - 1) =~= items);
    assert(json_text(JsonView::Array(items)).drop_last() =~= "["@ + items_text(items));
    if items.len() > 0 {
        assert(items_text(now) == items_text(items) + ","@ + json_text(doc));
        assert(json_text(JsonView::Array(now)) =~= "["@ + items_text(items) + ","@ + json_text(doc)
            + "]"@);
    }
    let member = (key, doc);
    let more = fields.push(member);
    assert(more.subrange(0, more.len() - 1) =~= fields);
    assert(more[more.len() - 1] == member);
    assert(json_text(JsonView::Object(fields)).drop_last() =~= "{"@ + fields_text(fields));
    if fields.len() > 0 {
        assert(fields_text(more) == fields_text(fields) + ","@ + (quoted(key) + ":"@ + json_text(
            doc,
        )));
        assert(json_text(JsonView::Object(more)) =~= "{"@ + fields_text(fields) + ","@ + quoted(key)
            + ":"@ + json_text(doc) + "}"@);
    }
    assert(json_text(JsonView::Object(seq![member])) =~= "{"@ + quoted(key) + ":"@ + json_text(doc)
        + "}"@) by {
        assert(seq![member].len() == 1 && seq![member][0] == member);
        assert(fields_text(seq![member]) == quoted(key) + ":"@ + json_text(doc));
    }
}

} // verus!
