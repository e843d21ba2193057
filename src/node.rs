//! Nodes and relations, and their one-line text form.
use vstd::prelude::*;
use crate::text::{
    TextValue, chars_of, decimal, parse_u32, parse_u32_chars, push_char, push_decimal,
    split_chars, split_on, string_of,
};

verus! {

/// Why a line could not be read.
#[derive(Debug, Clone, Copy, PartialEq, Eq, Structural)]
pub enum ParseError {
    /// The line does not split into exactly two tokens at single spaces.
    MalformedLine,
    /// A token that should be an unsigned 32-bit integer is not one.
    InvalidId,
    /// The value token does not denote a value.
    InvalidValue,
}

/// A vertex: a unique id and a value.
#[derive(Debug)]
pub struct Node<V> {
    pub id: u32,
    pub value: V,
}

/// A directed edge from the node `begin` to the node `end`.
#[derive(Debug, Clone, Copy, PartialEq, Eq, Structural)]
pub struct Relation {
    pub begin: u32,
    pub end: u32,
}

/// The text of a node: its id, one space, the text of its value.
pub open spec fn node_line<V: TextValue>(n: Node<V>) -> Seq<char> {
    decimal(n.id as nat) + seq![' '] + V::text_of(n.value@)
}

/// What a node line denotes: an id and the view of a value.
pub open spec fn parse_node<V: TextValue>(line: Seq<char>) -> Result<(u32, V::V), ParseError> {
    let t = split_on(line, ' ');
    if t.len() != 2 {
        Err(ParseError::MalformedLine)
    } else {
        match parse_u32(t[0]) {
            None => Err(ParseError::InvalidId),
            Some(id) => match V::parse_text(t[1]) {
                None => Err(ParseError::InvalidValue),
                Some(v) => Ok((id, v)),
            },
        }
    }
}

impl<V: TextValue> Node<V> {
    pub fn new(id: u32, value: V) -> (r: Self)
        ensures
            r.id == id,
            r.value == value,
    {
        Node { id, value }
    }

    /// The node as one line, without a line break.
    pub fn marshal(&self) -> (r: String)
        ensures
            r@ == node_line(*self),
    {
        let mut s = String::new();
        push_decimal(&mut s, self.id);
        push_char(&mut s, ' ');
        let t = self.value.to_text();
        s.append(t.as_str());
        s
    }

    /// Reads a node from one line.
    pub fn unmarshal(s: &str) -> (r: Result<Self, ParseError>)
        ensures
            match r {
                Ok(n) => parse_node::<V>(s@) == Ok::<(u32, V::V), ParseError>((n.id, n.value@)),
                Err(e) => parse_node::<V>(s@) == Err::<(u32, V::V), ParseError>(e),
            },
    {
        Self::unmarshal_chars(&chars_of(s))
    }

    pub(crate) fn unmarshal_chars(line: &Vec<char>) -> (r: Result<Self, ParseError>)
        ensures
            match r {
                Ok(n) => parse_node::<V>(line@) == Ok::<(u32, V::V), ParseError>((n.id, n.value@)),
                Err(e) => parse_node::<V>(line@) == Err::<(u32, V::V), ParseError>(e),
            },
    {
        let t = split_chars(line, ' ');
        if t.len() != 2 {
            return Err(ParseError::MalformedLine);
        }
        assert(t[0]@ == split_on(line@, ' ')[0] && t[1]@ == split_on(line@, ' ')[1]);
        let id = match parse_u32_chars(&t[0]) {
            None => return Err(ParseError::InvalidId),
            Some(id) => id,
        };
        let text = string_of(&t[1]);
        match V::from_text(text.as_str()) {
            None => Err(ParseError::InvalidValue),
            Some(value) => Ok(Node { id, value }),
        }
    }
}

/// The text of a relation: its two ids with one space between.
pub open spec fn relation_line(r: Relation) -> Seq<char> {
    decimal(r.begin as nat) + seq![' '] + decimal(r.end as nat)
}

/// What a relation line denotes.
pub open spec fn parse_relation(line: Seq<char>) -> Result<Relation, ParseError> {
    let t = split_on(line, ' ');
    if t.len() != 2 {
        Err(ParseError::MalformedLine)
    } else {
        match (parse_u32(t[0]), parse_u32(t[1])) {
            (Some(b), Some(e)) => Ok(Relation { begin: b, end: e }),
            _ => Err(ParseError::InvalidId),
        }
    }
}

impl Relation {
    pub fn new(begin: u32, end: u32) -> (r: Self)
        ensures
            r.begin == begin,
            r.end == end,
    {
        Relation { begin, end }
    }

    /// The relation as one line, without a line break.
    pub fn marshal(&self) -> (r: String)
        ensures
            r@ == relation_line(*self),
    {
        let mut s = String::new();
        push_decimal(&mut s, self.begin);
        push_char(&mut s, ' ');
        push_decimal(&mut s, self.end);
        s
    }

    /// Reads a relation from one line.
    pub fn unmarshal(s: &str) -> (r: Result<Self, ParseError>)
        ensures
            r == parse_relation(s@),
    {
        Self::unmarshal_chars(&chars_of(s))
    }

    pub(crate) fn unmarshal_chars(line: &Vec<char>) -> (r: Result<Self, ParseError>)
        ensures
            r == parse_relation(line@),
    {
        let t = split_chars(line, ' ');
        if t.len() != 2 {
            return Err(ParseError::MalformedLine);
        }
        assert(t[0]@ == split_on(line@, ' ')[0] && t[1]@ == split_on(line@, ' ')[1]);
        match (parse_u32_chars(&t[0]), parse_u32_chars(&t[1])) {
            (Some(begin), Some(end)) => Ok(Relation { begin, end }),
            _ => Err(ParseError::InvalidId),
        }
    }

    /// The node the relation starts from.
    pub fn begin(&self) -> (r: u32)
        ensures
            r == self.begin,
    {
        self.begin
    }

    /// The node the relation leads to.
    pub fn end(&self) -> (r: u32)
        ensures
            r == self.end,
    {
        self.end
    }
}

} // verus!
