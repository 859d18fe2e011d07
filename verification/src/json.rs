//! Metadata documents as trees.

use vstd::prelude::*;
use vstd::string::StringExecFns;

verus! {

/// A metadata document or a part of one. A double is given by its bits.
#[derive(Debug)]
pub enum Json {
    Null,
    Int(i64),
    Nat(u64),
    Double(u64),
    Text(String),
    List(Vec<Json>),
    Object(Vec<Member>),
    /// A text: the compact form of a document.
    Compact(Box<Json>),
}

/// A named part of an object.
#[derive(Debug)]
pub struct Member {
    pub key: String,
    pub value: Json,
}

/// What a document says.
pub enum Doc {
    Null,
    Int(int),
    Double(u64),
    Text(Seq<char>),
    List(Seq<Doc>),
    Object(Seq<(Seq<char>, Doc)>),
    Compact(Box<Doc>),
}

impl Json {
    /// What the document says.
    pub open spec fn doc(&self) -> Doc
        decreases self,
    {
        match *self {
            Json::Null => Doc::Null,
            Json::Int(n) => Doc::Int(n as int),
            Json::Nat(n) => Doc::Int(n as int),
            Json::Double(bits) => Doc::Double(bits),
            Json::Text(s) => Doc::Text(s@),
            Json::List(v) => Doc::List(docs(v@)),
            Json::Object(v) => Doc::Object(members(v@)),
            Json::Compact(j) => Doc::Compact(Box::new(j.doc())),
        }
    }
}

/// What the parts of a list say.
pub open spec fn docs(parts: Seq<Json>) -> Seq<Doc>
    decreases parts,
{
    if parts.len() == 0 {
        Seq::empty()
    } else {
        docs(parts.drop_last()).push(parts.last().doc())
    }
}

/// What the parts of an object say.
pub open spec fn members(parts: Seq<Member>) -> Seq<(Seq<char>, Doc)>
    decreases parts,
{
    if parts.len() == 0 {
        Seq::empty()
    } else {
        members(parts.drop_last()).push((parts.last().key@, parts.last().value.doc()))
    }
}

/// A text.
pub fn text(s: &str) -> (r: Json)
    ensures
        r.doc() == Doc::Text(s@),
{
    Json::Text(String::from_str(s))
}

/// The compact form of a document, as a text.
pub fn compact(j: Json) -> (r: Json)
    ensures
        r.doc() == Doc::Compact(Box::new(j.doc())),
{
    Json::Compact(Box::new(j))
}

/// A list under construction.
pub struct ListOf {
    pub parts: Vec<Json>,
}

impl ListOf {
    /// What the parts say.
    pub open spec fn said(&self) -> Seq<Doc> {
        docs(self.parts@)
    }

    /// An empty list.
    pub fn new() -> (r: Self)
        ensures
            r.said() == Seq::<Doc>::empty(),
    {
        ListOf { parts: Vec::new() }
    }

    /// Appends a part.
    pub fn push(&mut self, part: Json)
        ensures
            final(self).said() == old(self).said().push(part.doc()),
    {
        self.parts.push(part);
        assert(self.parts@.drop_last() =~= old(self).parts@);
    }

    /// The list.
    pub fn done(self) -> (r: Json)
        ensures
            r.doc() == Doc::List(self.said()),
    {
        Json::List(self.parts)
    }
}

/// An object under construction.
pub struct ObjectOf {
    pub parts: Vec<Member>,
}

impl ObjectOf {
    /// What the parts say.
    pub open spec fn said(&self) -> Seq<(Seq<char>, Doc)> {
        members(self.parts@)
    }

    /// An empty object.
    pub fn new() -> (r: Self)
        ensures
            r.said() == Seq::<(Seq<char>, Doc)>::empty(),
    {
        ObjectOf { parts: Vec::new() }
    }

    /// Appends a named part.
    pub fn put(&mut self, key: &str, value: Json)
        ensures
            final(self).said() == old(self).said().push((key@, value.doc())),
    {
        self.parts.push(Member { key: String::from_str(key), value });
        assert(self.parts@.drop_last() =~= old(self).parts@);
    }

    /// The object.
    pub fn done(self) -> (r: Json)
        ensures
            r.doc() == Doc::Object(self.said()),
    {
        Json::Object(self.parts)
    }
}

} // verus!
