//! The documents a request carries, and the ones it is answered with.

use crate::text::same_text;
use serde_json::Value;
use vstd::prelude::*;
use vstd::utf8::encode_utf8;

verus! {

// -- requests ---------------------------------------------------------------

/// A JSON document, as far as a request is read.
pub enum Document {
    Null,
    Bool(bool),
    /// A number: its value if it is a whole number that is not negative, and
    /// how it is written.
    Number(Option<u64>, Seq<char>),
    Text(Seq<char>),
    /// A list, and how it is written.
    List(Seq<Document>, Seq<char>),
    /// Members by name, and how the whole is written.
    Object(Seq<(Seq<char>, Document)>, Seq<char>),
}

pub enum Json {
    Null,
    Bool(bool),
    Number(Option<u64>, String),
    Text(String),
    List(Vec<Json>, String),
    Object(Vec<(String, Json)>, String),
}

impl Json {
    pub open spec fn view(&self) -> Document
        decreases self,
    {
        match self {
            Json::Null => Document::Null,
            Json::Bool(b) => Document::Bool(*b),
            Json::Number(n, text) => Document::Number(*n, text@),
            Json::Text(s) => Document::Text(s@),
            Json::List(items, text) => Document::List(
                Seq::new(
                    items@.len(),
                    |i: int|
                        if 0 <= i < items@.len() {
                            items@[i].view()
                        } else {
                            Document::Null
                        },
                ),
                text@,
            ),
            Json::Object(members, text) => Document::Object(
                Seq::new(
                    members@.len(),
                    |i: int|
                        if 0 <= i < members@.len() {
                            (members@[i].0@, members@[i].1.view())
                        } else {
                            (Seq::empty(), Document::Null)
                        },
                ),
                text@,
            ),
        }
    }
}

/// The member of a name among several, the first if there are more.
pub open spec fn member(members: Seq<(Seq<char>, Document)>, name: Seq<char>) -> Option<Document>
    decreases members.len(),
{
    if members.len() == 0 {
        None
    } else if members[0].0 == name {
        Some(members[0].1)
    } else {
        member(members.skip(1), name)
    }
}

impl Document {
    /// A member of an object. Nothing else has any.
    pub open spec fn get(self, name: Seq<char>) -> Option<Document> {
        match self {
            Document::Object(members, _) => member(members, name),
            _ => None,
        }
    }

    pub open spec fn as_u64(self) -> Option<u64> {
        match self {
            Document::Number(n, _) => n,
            _ => None,
        }
    }

    pub open spec fn as_bool(self) -> Option<bool> {
        match self {
            Document::Bool(b) => Some(b),
            _ => None,
        }
    }

    pub open spec fn as_text(self) -> Option<Seq<char>> {
        match self {
            Document::Text(s) => Some(s),
            _ => None,
        }
    }

    pub open spec fn as_list(self) -> Option<Seq<Document>> {
        match self {
            Document::List(items, _) => Some(items),
            _ => None,
        }
    }

    /// How a document is shown to somebody: a text as it is, anything else as
    /// it is written.
    pub open spec fn shown(self) -> Seq<char> {
        match self {
            Document::Null => "null"@,
            Document::Bool(b) => if b {
                "true"@
            } else {
                "false"@
            },
            Document::Number(_, text) => text,
            Document::Text(s) => s,
            Document::List(_, text) => text,
            Document::Object(_, text) => text,
        }
    }

    // -- members of a certain kind ------------------------------------------

    pub open spec fn number_at(self, name: Seq<char>) -> Option<u64> {
        match self.get(name) {
            Some(d) => d.as_u64(),
            None => None,
        }
    }

    /// A whole number, cut down to 32 bits.
    pub open spec fn u32_at(self, name: Seq<char>) -> Option<u32> {
        match self.number_at(name) {
            Some(n) => Some((n % 0x1_0000_0000) as u32),
            None => None,
        }
    }

    /// A flag, which is off unless it is there and on.
    pub open spec fn flag_at(self, name: Seq<char>) -> bool {
        match self.get(name) {
            Some(d) => d.as_bool() == Some(true),
            None => false,
        }
    }

    pub open spec fn text_at(self, name: Seq<char>) -> Option<Seq<char>> {
        match self.get(name) {
            Some(d) => d.as_text(),
            None => None,
        }
    }

    pub open spec fn list_at(self, name: Seq<char>) -> Option<Seq<Document>> {
        match self.get(name) {
            Some(d) => d.as_list(),
            None => None,
        }
    }
}

impl Json {
    /// An object without members.
    pub fn empty() -> (j: Json)
        ensures
            j.view() == no_members(),
    {
        let j = Json::Object(Vec::new(), "{}".to_owned());
        assert(j.view() is Object);
        assert(j.view()->Object_0 =~= Seq::empty());
        j
    }

    pub fn get(&self, name: &str) -> (r: Option<&Json>)
        ensures
            match r {
                Some(j) => self.view().get(name@) == Some(j.view()),
                None => self.view().get(name@) is None,
            },
    {
        match self {
            Json::Object(members, _text) => {
                let ghost all = self.view()->Object_0;
                let mut i: usize = 0;
                assert(all.skip(0) =~= all);
                while i < members.len()
                    invariant
                        i <= members.len(),
                        all.len() == members@.len(),
                        forall|k: int|
                            0 <= k < members@.len() ==> #[trigger] all[k] == (
                                members@[k].0@,
                                members@[k].1.view(),
                            ),
                        self.view().get(name@) == member(all, name@),
                        member(all, name@) == member(all.skip(i as int), name@),
                    decreases members.len() - i,
                {
                    assert(all[i as int] == (members@[i as int].0@, members@[i as int].1.view()));
                    assert(all.skip(i as int)[0] == all[i as int]);
                    assert(all.skip(i as int).skip(1) =~= all.skip(i as int + 1));
                    if same_text(members[i].0.as_str(), name) {
                        return Some(&members[i].1);
                    }
                    i += 1;
                }
                None
            },
            _ => None,
        }
    }

    pub fn as_u64(&self) -> (r: Option<u64>)
        ensures
            r == self.view().as_u64(),
    {
        match self {
            Json::Number(n, _text) => *n,
            _ => None,
        }
    }

    pub fn as_bool(&self) -> (r: Option<bool>)
        ensures
            r == self.view().as_bool(),
    {
        match self {
            Json::Bool(b) => Some(*b),
            _ => None,
        }
    }

    pub fn number_at(&self, name: &str) -> (r: Option<u64>)
        ensures
            r == self.view().number_at(name@),
    {
        match self.get(name) {
            Some(j) => j.as_u64(),
            None => None,
        }
    }

    pub fn u32_at(&self, name: &str) -> (r: Option<u32>)
        ensures
            r == self.view().u32_at(name@),
    {
        match self.number_at(name) {
            Some(n) => Some((n % 0x1_0000_0000) as u32),
            None => None,
        }
    }

    pub fn flag_at(&self, name: &str) -> (b: bool)
        ensures
            b == self.view().flag_at(name@),
    {
        match self.get(name) {
            Some(j) => match j.as_bool() {
                Some(b) => b,
                None => false,
            },
            None => false,
        }
    }

    pub fn text_at(&self, name: &str) -> (r: Option<String>)
        ensures
            match r {
                Some(s) => self.view().text_at(name@) == Some(s@),
                None => self.view().text_at(name@) is None,
            },
    {
        match self.get(name) {
            Some(Json::Text(s)) => Some(s.clone()),
            _ => None,
        }
    }

    /// How a document is shown to somebody.
    pub fn shown(&self) -> (s: String)
        ensures
            s@ == self.view().shown(),
    {
        match self {
            Json::Null => "null".to_owned(),
            Json::Bool(b) => if *b {
                "true".to_owned()
            } else {
                "false".to_owned()
            },
            Json::Number(_n, text) => text.clone(),
            Json::Text(s) => s.clone(),
            Json::List(_items, text) => text.clone(),
            Json::Object(_members, text) => text.clone(),
        }
    }
}

pub open spec fn no_members() -> Document {
    Document::Object(Seq::empty(), "{}"@)
}

/// A parsed JSON value. What it holds is read off it whole.
#[verifier::external_type_specification]
#[verifier::external_body]
pub struct ExValue(Value);

/// Why a text is no JSON.
#[verifier::external_type_specification]
#[verifier::external_body]
pub struct ExJsonError(serde_json::Error);

/// What a parsed value holds.
pub uninterp spec fn content(v: Value) -> Document;

/// What JSON text says, if it is JSON text.
pub uninterp spec fn parsed(text: Seq<u8>) -> Option<Document>;

/// `serde_json::from_slice`, into a value: whether it succeeds and what it
/// yields is decided by the text alone.
#[verifier::external_body]
fn serde_from_slice(text: &[u8]) -> (r: Result<Value, serde_json::Error>)
    ensures
        match r {
            Ok(v) => parsed(text@) == Some(content(v)),
            Err(_) => parsed(text@) is None,
        },
{
    serde_json::from_slice(text)
}

/// A `serde_json::Value` as a document, member for member: each number with
/// what `as_u64` says of it, and each number, list and object with what
/// `to_string` writes for it.
#[verifier::external_body]
fn serde_document(v: &Value) -> (j: Json)
    ensures
        j.view() == content(*v),
{
    match v {
        Value::Null => Json::Null,
        Value::Bool(b) => Json::Bool(*b),
        Value::Number(n) => Json::Number(n.as_u64(), n.to_string()),
        Value::String(s) => Json::Text(s.clone()),
        Value::Array(items) => Json::List(items.iter().map(serde_document).collect(), v.to_string()),
        Value::Object(members) => Json::Object(
            members.iter().map(|(k, m)| (k.clone(), serde_document(m))).collect(),
            v.to_string(),
        ),
    }
}

/// Reads a document, if the text is one.
pub fn parse(text: &[u8]) -> (r: Option<Json>)
    ensures
        match r {
            Some(j) => parsed(text@) == Some(j.view()),
            None => parsed(text@) is None,
        },
{
    match serde_from_slice(text) {
        Ok(v) => Some(serde_document(&v)),
        Err(_) => None,
    }
}

/// What a body says: nothing at all if it is empty or no JSON.
pub open spec fn payload(body: Seq<u8>) -> Document {
    if body.len() == 0 {
        no_members()
    } else {
        match parsed(body) {
            Some(d) => d,
            None => no_members(),
        }
    }
}

pub fn payload_of(body: &[u8]) -> (j: Json)
    ensures
        j.view() == payload(body@),
{
    if body.len() == 0 {
        return Json::empty();
    }
    match parse(body) {
        Some(j) => j,
        None => Json::empty(),
    }
}

// -- replies ----------------------------------------------------------------

/// One value of a reply.
pub enum Datum {
    Flag(bool),
    Count(u64),
    Words(Seq<char>),
}

pub enum Item {
    Flag(bool),
    Count(u64),
    Words(String),
}

impl Item {
    pub open spec fn view(&self) -> Datum {
        match self {
            Item::Flag(b) => Datum::Flag(*b),
            Item::Count(n) => Datum::Count(*n),
            Item::Words(s) => Datum::Words(s@),
        }
    }
}

/// A reply: values by name.
pub struct Reply {
    pub items: Vec<(String, Item)>,
}

impl View for Reply {
    type V = Seq<(Seq<char>, Datum)>;

    open spec fn view(&self) -> Seq<(Seq<char>, Datum)> {
        Seq::new(self.items@.len(), |i: int| (self.items@[i].0@, self.items@[i].1.view()))
    }
}

impl Reply {
    pub fn new() -> (r: Reply)
        ensures
            r@ == Seq::<(Seq<char>, Datum)>::empty(),
    {
        let r = Reply { items: Vec::new() };
        assert(r@ =~= Seq::<(Seq<char>, Datum)>::empty());
        r
    }

    pub fn flag(self, name: &str, b: bool) -> (r: Reply)
        ensures
            r@ == self@.push((name@, Datum::Flag(b))),
    {
        self.with(name, Item::Flag(b))
    }

    pub fn count(self, name: &str, n: u64) -> (r: Reply)
        ensures
            r@ == self@.push((name@, Datum::Count(n))),
    {
        self.with(name, Item::Count(n))
    }

    pub fn words(self, name: &str, s: String) -> (r: Reply)
        ensures
            r@ == self@.push((name@, Datum::Words(s@))),
    {
        self.with(name, Item::Words(s))
    }

    fn with(self, name: &str, item: Item) -> (r: Reply)
        ensures
            r@ == self@.push((name@, item.view())),
    {
        let ghost before = self@;
        let mut items = self.items;
        items.push((name.to_owned(), item));
        let r = Reply { items };
        assert(r@ =~= before.push((name@, item.view())));
        r
    }
}

/// Whether a document holds a value under a name.
pub open spec fn says(d: Document, name: Seq<char>, value: Datum) -> bool {
    match value {
        Datum::Flag(b) => d.get(name) == Some(Document::Bool(b)),
        Datum::Count(n) => d.number_at(name) == Some(n),
        Datum::Words(w) => d.text_at(name) == Some(w),
    }
}

/// Whether JSON text says what a reply does: under each of its names, what was
/// put there last.
pub open spec fn says_all(text: Seq<char>, reply: Seq<(Seq<char>, Datum)>) -> bool {
    match parsed(encode_utf8(text)) {
        Some(d) => forall|i: int|
            0 <= i < reply.len() && (forall|j: int|
                i < j < reply.len() ==> (#[trigger] reply[j]).0 != reply[i].0) ==> says(
                d,
                (#[trigger] reply[i]).0,
                reply[i].1,
            ),
        None => false,
    }
}

/// A reply written as JSON.
pub uninterp spec fn written(reply: Seq<(Seq<char>, Datum)>) -> Seq<char>;

/// `Value::to_string`, of an object with the reply's members put into it in
/// order. What is written reads back as an object with those members.
#[verifier::external_body]
pub(crate) fn serde_to_string(reply: &Reply) -> (text: String)
    ensures
        text@ == written(reply@),
        says_all(text@, reply@),
{
    let mut members = serde_json::Map::new();
    for (name, item) in &reply.items {
        let value = match item {
            Item::Flag(b) => Value::from(*b),
            Item::Count(n) => Value::from(*n),
            Item::Words(s) => Value::from(s.as_str()),
        };
        members.insert(name.clone(), value);
    }
    Value::Object(members).to_string()
}

// -- laws -------------------------------------------------------------------

/// A member of an object is found by its name: the first of that name, whatever
/// the others are called. Nothing but an object has members.
pub proof fn a_member_is_found_by_its_name(
    members: Seq<(Seq<char>, Document)>,
    text: Seq<char>,
    name: Seq<char>,
    i: int,
)
    ensures
        0 <= i < members.len() && members[i].0 == name && (forall|j: int|
            0 <= j < i ==> (#[trigger] members[j]).0 != name) ==> Document::Object(
            members,
            text,
        ).get(name) == Some(members[i].1),
        (forall|j: int| 0 <= j < members.len() ==> (#[trigger] members[j]).0 != name)
            ==> Document::Object(members, text).get(name) is None,
        Document::Null.get(name) is None,
        Document::Text(text).get(name) is None,
    decreases members.len(),
{
    if members.len() > 0 {
        let rest = members.skip(1);
        a_member_is_found_by_its_name(rest, text, name, i - 1);
        assert forall|j: int| 0 <= j < rest.len() implies #[trigger] rest[j] == members[j + 1] by {}
        if i > 0 {
            assert(members[0].0 == members[0].0);
            assert((forall|j: int| 0 <= j < i ==> (#[trigger] members[j]).0 != name) ==> (forall|j: int|
                0 <= j < i - 1 && j < rest.len() ==> (#[trigger] rest[j]).0 != name));
        }
        assert((forall|j: int| 0 <= j < members.len() ==> (#[trigger] members[j]).0 != name)
            ==> (forall|j: int| 0 <= j < rest.len() ==> (#[trigger] rest[j]).0 != name));
    }
}

/// A member is read as what it is and as nothing else: a number is no text, a
/// text no flag, and a member that is missing is none of them. A number is cut
/// down to its low 32 bits where one of 32 bits is asked for.
pub proof fn a_member_is_read_as_what_it_is(
    d: Document,
    name: Seq<char>,
    n: u64,
    s: Seq<char>,
    items: Seq<Document>,
    b: bool,
)
    ensures
        d.get(name) == Some(Document::Number(Some(n), s)) ==> d.number_at(name) == Some(n)
            && d.u32_at(name) is Some && d.u32_at(name)->0 == n as int % 4294967296 && d.text_at(
            name,
        ) is None && d.list_at(name) is None && !d.flag_at(name),
        d.get(name) == Some(Document::Number(None, s)) ==> d.number_at(name) is None && d.u32_at(
            name,
        ) is None,
        d.get(name) == Some(Document::Text(s)) ==> d.text_at(name) == Some(s) && d.number_at(
            name,
        ) is None && d.u32_at(name) is None && d.list_at(name) is None && !d.flag_at(name),
        d.get(name) == Some(Document::List(items, s)) ==> d.list_at(name) == Some(items)
            && d.number_at(name) is None && d.u32_at(name) is None && d.text_at(name) is None
            && !d.flag_at(name),
        d.get(name) == Some(Document::Bool(b)) ==> d.flag_at(name) == b && d.number_at(name) is None
            && d.u32_at(name) is None && d.text_at(name) is None && d.list_at(name) is None,
        d.get(name) is None || d.get(name) == Some(Document::Null) ==> d.number_at(name) is None
            && d.u32_at(name) is None && d.text_at(name) is None && d.list_at(name) is None
            && !d.flag_at(name),
        Document::Text(s).shown() == s,
        Document::Number(Some(n), s).shown() == s,
        Document::Number(None, s).shown() == s,
        Document::List(items, s).shown() == s,
        Document::Bool(true).shown() == "true"@,
        Document::Bool(false).shown() == "false"@,
        Document::Null.shown() == "null"@,
{
}

/// A body says what it parses to. One that is empty, or no JSON, says nothing
/// under any name.
pub proof fn a_body_says_what_it_parses_to(body: Seq<u8>, d: Document, name: Seq<char>)
    ensures
        body.len() > 0 && parsed(body) == Some(d) ==> payload(body) == d,
        body.len() == 0 || parsed(body) is None ==> payload(body).get(name) is None,
{
    a_member_is_found_by_its_name(Seq::empty(), "{}"@, name, 0);
}

} // verus!
