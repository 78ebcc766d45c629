//! Recursive-descent parsing: the token sequence of the lexer is turned
//! into a tree of [`Value`] nodes, one-token lookahead, failing on any
//! structural violation or premature end of input.
//!
//! The grammar is specified by [`spec_parse_value`] over token views;
//! [`Parser::parse`] is proved to build exactly the value it describes,
//! and to fail exactly where it fails.

use vstd::prelude::*;
use vstd::string::StringExecFns;
use crate::lexer::SpecToken;
use crate::lexer::Token;
use crate::lexer::token_views;

verus! {

/// A node of the parsed JSON tree.
///
/// An object is an insertion-ordered list of key/value entries; entries
/// with equal keys are all retained, in encounter order. A number keeps
/// the numeral text its token was scanned from.
#[derive(Debug, PartialEq)]
pub enum Value {
    Null,
    Bool(bool),
    Number(String),
    String(String),
    Object(Vec<(String, Value)>),
    Array(Vec<Value>),
}

/// The mathematical form of a value.
pub enum SpecValue {
    Null,
    Bool(bool),
    Number(Seq<char>),
    String(Seq<char>),
    Object(Seq<(Seq<char>, SpecValue)>),
    Array(Seq<SpecValue>),
}

/// The views of an entry list, element by element.
pub open spec fn entry_views(es: Seq<(String, Value)>) -> Seq<(Seq<char>, SpecValue)>
    decreases es,
    via entry_views_dec
{
    Seq::new(
        es.len(),
        |i: int|
            if 0 <= i < es.len() {
                (es[i].0@, es[i].1@)
            } else {
                (Seq::empty(), SpecValue::Null)
            },
    )
}

#[via_fn]
proof fn entry_views_dec(es: Seq<(String, Value)>) {
    assert forall|i: int| 0 <= i < es.len() implies decreases_to!(es => es[i].1) by {
        assert(decreases_to!(es => es[i]));
        assert(decreases_to!(es[i] => es[i].1));
    }
}

/// The views of a value list, element by element.
pub open spec fn value_views(vs: Seq<Value>) -> Seq<SpecValue>
    decreases vs,
    via value_views_dec
{
    Seq::new(
        vs.len(),
        |i: int|
            if 0 <= i < vs.len() {
                vs[i]@
            } else {
                SpecValue::Null
            },
    )
}

#[via_fn]
proof fn value_views_dec(vs: Seq<Value>) {
    assert forall|i: int| 0 <= i < vs.len() implies decreases_to!(vs => vs[i]) by {
    }
}

impl View for Value {
    type V = SpecValue;

    open spec fn view(&self) -> SpecValue
        decreases self,
    {
        match self {
            Value::Null => SpecValue::Null,
            Value::Bool(b) => SpecValue::Bool(*b),
            Value::Number(s) => SpecValue::Number(s@),
            Value::String(s) => SpecValue::String(s@),
            Value::Object(entries) => SpecValue::Object(entry_views(entries@)),
            Value::Array(items) => SpecValue::Array(value_views(items@)),
        }
    }
}

/// Outcome of parsing a value from the front of a token sequence: the
/// value with the tokens that follow it, or a failure.
pub enum ParseStep {
    Val(SpecValue, Seq<SpecToken>),
    Fail,
}

/// Parsing one value: a leaf token stands alone; a left brace or bracket
/// opens an object or array. Anything else, or an exhausted input, fails.
pub open spec fn spec_parse_value(ts: Seq<SpecToken>) -> ParseStep
    decreases ts.len(), 0int,
{
    if ts.len() == 0 {
        ParseStep::Fail
    } else {
        match ts[0] {
            SpecToken::Number(s) => ParseStep::Val(SpecValue::Number(s), ts.drop_first()),
            SpecToken::String(s) => ParseStep::Val(SpecValue::String(s), ts.drop_first()),
            SpecToken::Bool(b) => ParseStep::Val(SpecValue::Bool(b), ts.drop_first()),
            SpecToken::Null => ParseStep::Val(SpecValue::Null, ts.drop_first()),
            SpecToken::LeftBrace => spec_parse_object(ts.drop_first()),
            SpecToken::LeftBracket => spec_parse_array(ts.drop_first()),
            _ => ParseStep::Fail,
        }
    }
}

/// Parsing an object, its left brace already consumed: empty at once, or a
/// member list.
pub open spec fn spec_parse_object(ts: Seq<SpecToken>) -> ParseStep
    decreases ts.len(), 2int,
{
    if ts.len() == 0 {
        ParseStep::Fail
    } else if ts[0] is RightBrace {
        ParseStep::Val(SpecValue::Object(Seq::empty()), ts.drop_first())
    } else {
        spec_parse_members(ts, Seq::empty())
    }
}

/// Parsing the members of an object: a string key, a colon, a value, then
/// a comma to continue or a right brace to finish. A comma must be
/// followed by another member.
pub open spec fn spec_parse_members(
    ts: Seq<SpecToken>,
    acc: Seq<(Seq<char>, SpecValue)>,
) -> ParseStep
    decreases ts.len(), 1int,
{
    if ts.len() < 2 {
        ParseStep::Fail
    } else {
        match (ts[0], ts[1]) {
            (SpecToken::String(key), SpecToken::Colon) => match spec_parse_value(ts.skip(2)) {
                ParseStep::Val(v, rest) => if rest.len() == 0 {
                    ParseStep::Fail
                } else if rest[0] is Comma {
                    if rest.len() < ts.len() {
                        spec_parse_members(rest.drop_first(), acc.push((key, v)))
                    } else {
                        ParseStep::Fail
                    }
                } else if rest[0] is RightBrace {
                    ParseStep::Val(SpecValue::Object(acc.push((key, v))), rest.drop_first())
                } else {
                    ParseStep::Fail
                },
                ParseStep::Fail => ParseStep::Fail,
            },
            _ => ParseStep::Fail,
        }
    }
}

/// Parsing an array, its left bracket already consumed: empty at once, or
/// an item list.
pub open spec fn spec_parse_array(ts: Seq<SpecToken>) -> ParseStep
    decreases ts.len(), 2int,
{
    if ts.len() == 0 {
        ParseStep::Fail
    } else if ts[0] is RightBracket {
        ParseStep::Val(SpecValue::Array(Seq::empty()), ts.drop_first())
    } else {
        spec_parse_items(ts, Seq::empty())
    }
}

/// Parsing the items of an array: a value, then a comma to continue or a
/// right bracket to finish. A comma must be followed by another item.
pub open spec fn spec_parse_items(ts: Seq<SpecToken>, acc: Seq<SpecValue>) -> ParseStep
    decreases ts.len(), 1int,
{
    match spec_parse_value(ts) {
        ParseStep::Val(v, rest) => if rest.len() == 0 {
            ParseStep::Fail
        } else if rest[0] is Comma {
            if rest.len() < ts.len() {
                spec_parse_items(rest.drop_first(), acc.push(v))
            } else {
                ParseStep::Fail
            }
        } else if rest[0] is RightBracket {
            ParseStep::Val(SpecValue::Array(acc.push(v)), rest.drop_first())
        } else {
            ParseStep::Fail
        },
        ParseStep::Fail => ParseStep::Fail,
    }
}

/// A parsed value always leaves a strictly shorter token sequence behind.
pub proof fn lemma_parse_value_shrinks(ts: Seq<SpecToken>)
    ensures
        spec_parse_value(ts) matches ParseStep::Val(_, rest) ==> rest.len() < ts.len(),
    decreases ts.len(), 0int,
{
    if ts.len() == 0 {
    } else {
        match ts[0] {
            SpecToken::LeftBrace => {
                lemma_parse_object_shrinks(ts.drop_first());
            },
            SpecToken::LeftBracket => {
                lemma_parse_array_shrinks(ts.drop_first());
            },
            _ => {},
        }
    }
}

/// As [`lemma_parse_value_shrinks`], for an object body.
proof fn lemma_parse_object_shrinks(ts: Seq<SpecToken>)
    ensures
        spec_parse_object(ts) matches ParseStep::Val(_, rest) ==> rest.len() < ts.len(),
    decreases ts.len(), 2int,
{
    if ts.len() == 0 {
    } else if ts[0] is RightBrace {
    } else {
        lemma_parse_members_shrinks(ts, Seq::empty());
    }
}

/// As [`lemma_parse_value_shrinks`], for a member list.
proof fn lemma_parse_members_shrinks(ts: Seq<SpecToken>, acc: Seq<(Seq<char>, SpecValue)>)
    ensures
        spec_parse_members(ts, acc) matches ParseStep::Val(_, rest) ==> rest.len() < ts.len(),
    decreases ts.len(), 1int,
{
    if ts.len() < 2 {
    } else {
        match (ts[0], ts[1]) {
            (SpecToken::String(key), SpecToken::Colon) => {
                lemma_parse_value_shrinks(ts.skip(2));
                match spec_parse_value(ts.skip(2)) {
                    ParseStep::Val(v, rest) => {
                        if rest.len() == 0 {
                        } else if rest[0] is Comma {
                            if rest.len() < ts.len() {
                                lemma_parse_members_shrinks(rest.drop_first(), acc.push((key, v)));
                            }
                        }
                    },
                    ParseStep::Fail => {},
                }
            },
            _ => {},
        }
    }
}

/// As [`lemma_parse_value_shrinks`], for an array body.
proof fn lemma_parse_array_shrinks(ts: Seq<SpecToken>)
    ensures
        spec_parse_array(ts) matches ParseStep::Val(_, rest) ==> rest.len() < ts.len(),
    decreases ts.len(), 2int,
{
    if ts.len() == 0 {
    } else if ts[0] is RightBracket {
    } else {
        lemma_parse_items_shrinks(ts, Seq::empty());
    }
}

/// As [`lemma_parse_value_shrinks`], for an item list.
proof fn lemma_parse_items_shrinks(ts: Seq<SpecToken>, acc: Seq<SpecValue>)
    ensures
        spec_parse_items(ts, acc) matches ParseStep::Val(_, rest) ==> rest.len() < ts.len(),
    decreases ts.len(), 1int,
{
    lemma_parse_value_shrinks(ts);
    match spec_parse_value(ts) {
        ParseStep::Val(v, rest) => {
            if rest.len() == 0 {
            } else if rest[0] is Comma {
                if rest.len() < ts.len() {
                    lemma_parse_items_shrinks(rest.drop_first(), acc.push(v));
                }
            }
        },
        ParseStep::Fail => {},
    }
}

// ---------------------------------------------------------------------------
// The parser
// ---------------------------------------------------------------------------

/// Error raised when parsing fails: an unexpected token where a value, key
/// or delimiter was expected, or an input exhausted before a structure
/// closes.
#[derive(Debug)]
pub struct ParseError {
    pub msg: String,
}

impl ParseError {
    /// An error with the given description.
    pub fn new(msg: &str) -> (e: ParseError)
        ensures
            e.msg@ == msg@,
    {
        ParseError { msg: String::from_str(msg) }
    }
}

/// Parses one value starting at `pos`; the result carries the position
/// just past the value.
fn parse_value_at(tokens: &Vec<Token>, pos: usize) -> (r: (Result<Value, ParseError>, usize))
    requires
        pos <= tokens@.len(),
    ensures
        r.1 <= tokens@.len(),
        match spec_parse_value(token_views(tokens@).skip(pos as int)) {
            ParseStep::Val(v, rest) => (match r.0 {
                Ok(val) => val@ == v,
                _ => false,
            }) && token_views(tokens@).skip(r.1 as int) == rest,
            ParseStep::Fail => r.0 is Err,
        },
    decreases tokens@.len() - pos, 0int,
{
    let ghost ts = token_views(tokens@).skip(pos as int);
    if pos >= tokens.len() {
        return (Err(ParseError::new("error: a token is expected")), pos);
    }
    proof {
        assert(ts[0] == tokens@[pos as int]@);
        assert(ts.drop_first() =~= token_views(tokens@).skip((pos + 1) as int));
    }
    match &tokens[pos] {
        Token::Number(s) => (Ok(Value::Number(s.clone())), pos + 1),
        Token::String(s) => (Ok(Value::String(s.clone())), pos + 1),
        Token::Bool(b) => (Ok(Value::Bool(*b)), pos + 1),
        Token::Null => (Ok(Value::Null), pos + 1),
        Token::LeftBrace => parse_object_at(tokens, pos + 1),
        Token::LeftBracket => parse_array_at(tokens, pos + 1),
        _ => (Err(ParseError::new("error: an unexpected token")), pos),
    }
}

/// Parses an object body, the left brace already consumed.
fn parse_object_at(tokens: &Vec<Token>, pos: usize) -> (r: (Result<Value, ParseError>, usize))
    requires
        pos <= tokens@.len(),
    ensures
        r.1 <= tokens@.len(),
        match spec_parse_object(token_views(tokens@).skip(pos as int)) {
            ParseStep::Val(v, rest) => (match r.0 {
                Ok(val) => val@ == v,
                _ => false,
            }) && token_views(tokens@).skip(r.1 as int) == rest,
            ParseStep::Fail => r.0 is Err,
        },
    decreases tokens@.len() - pos, 2int,
{
    let ghost ts = token_views(tokens@).skip(pos as int);
    if pos >= tokens.len() {
        return (Err(ParseError::new("error: an object is not closed")), pos);
    }
    proof {
        assert(ts[0] == tokens@[pos as int]@);
        assert(ts.drop_first() =~= token_views(tokens@).skip((pos + 1) as int));
        assert(entry_views(Seq::<(String, Value)>::empty()) =~= Seq::<(
            Seq<char>,
            SpecValue,
        )>::empty());
    }
    match &tokens[pos] {
        Token::RightBrace => (Ok(Value::Object(Vec::new())), pos + 1),
        _ => parse_members_at(tokens, pos, Vec::new()),
    }
}

/// Parses the members of an object: key, colon, value, then a comma to
/// continue or a right brace to finish. `entries` holds the members
/// already parsed, in encounter order.
fn parse_members_at(tokens: &Vec<Token>, pos: usize, entries: Vec<(String, Value)>) -> (r: (
    Result<Value, ParseError>,
    usize,
))
    requires
        pos <= tokens@.len(),
    ensures
        r.1 <= tokens@.len(),
        match spec_parse_members(token_views(tokens@).skip(pos as int), entry_views(entries@)) {
            ParseStep::Val(v, rest) => (match r.0 {
                Ok(val) => val@ == v,
                _ => false,
            }) && token_views(tokens@).skip(r.1 as int) == rest,
            ParseStep::Fail => r.0 is Err,
        },
    decreases tokens@.len() - pos, 1int,
{
    let ghost ts = token_views(tokens@).skip(pos as int);
    if pos >= tokens.len() || pos + 1 >= tokens.len() {
        return (Err(ParseError::new("error: an object member is expected")), pos);
    }
    proof {
        assert(ts[0] == tokens@[pos as int]@);
        assert(ts[1] == tokens@[(pos + 1) as int]@);
    }
    let key: String = match &tokens[pos] {
        Token::String(s) => s.clone(),
        _ => {
            return (Err(ParseError::new("error: an object key is expected")), pos);
        },
    };
    match &tokens[pos + 1] {
        Token::Colon => {},
        _ => {
            return (Err(ParseError::new("error: a colon is expected")), pos);
        },
    }
    proof {
        assert(ts.skip(2) =~= token_views(tokens@).skip((pos + 2) as int));
        lemma_parse_value_shrinks(ts.skip(2));
    }
    let (rv, npos) = parse_value_at(tokens, pos + 2);
    match rv {
        Ok(val) => {
            let ghost v = val@;
            let ghost rest = token_views(tokens@).skip(npos as int);
            proof {
                assert(rest.len() == tokens@.len() - npos);
            }
            if npos >= tokens.len() {
                return (Err(ParseError::new("error: an object is not closed")), npos);
            }
            proof {
                assert(rest[0] == tokens@[npos as int]@);
                assert(rest.drop_first() =~= token_views(tokens@).skip((npos + 1) as int));
            }
            let mut entries2 = entries;
            proof {
                assert(entry_views(entries2@.push((key, val))) =~= entry_views(entries2@).push(
                    (key@, v),
                ));
            }
            entries2.push((key, val));
            match &tokens[npos] {
                Token::Comma => parse_members_at(tokens, npos + 1, entries2),
                Token::RightBrace => (Ok(Value::Object(entries2)), npos + 1),
                _ => (Err(ParseError::new("error: a comma or a right brace is expected")), npos),
            }
        },
        Err(e) => (Err(e), npos),
    }
}

/// Parses an array body, the left bracket already consumed.
fn parse_array_at(tokens: &Vec<Token>, pos: usize) -> (r: (Result<Value, ParseError>, usize))
    requires
        pos <= tokens@.len(),
    ensures
        r.1 <= tokens@.len(),
        match spec_parse_array(token_views(tokens@).skip(pos as int)) {
            ParseStep::Val(v, rest) => (match r.0 {
                Ok(val) => val@ == v,
                _ => false,
            }) && token_views(tokens@).skip(r.1 as int) == rest,
            ParseStep::Fail => r.0 is Err,
        },
    decreases tokens@.len() - pos, 2int,
{
    let ghost ts = token_views(tokens@).skip(pos as int);
    if pos >= tokens.len() {
        return (Err(ParseError::new("error: an array is not closed")), pos);
    }
    proof {
        assert(ts[0] == tokens@[pos as int]@);
        assert(ts.drop_first() =~= token_views(tokens@).skip((pos + 1) as int));
        assert(value_views(Seq::<Value>::empty()) =~= Seq::<SpecValue>::empty());
    }
    match &tokens[pos] {
        Token::RightBracket => (Ok(Value::Array(Vec::new())), pos + 1),
        _ => parse_items_at(tokens, pos, Vec::new()),
    }
}

/// Parses the items of an array: a value, then a comma to continue or a
/// right bracket to finish. `items` holds the items already parsed, in
/// order.
fn parse_items_at(tokens: &Vec<Token>, pos: usize, items: Vec<Value>) -> (r: (
    Result<Value, ParseError>,
    usize,
))
    requires
        pos <= tokens@.len(),
    ensures
        r.1 <= tokens@.len(),
        match spec_parse_items(token_views(tokens@).skip(pos as int), value_views(items@)) {
            ParseStep::Val(v, rest) => (match r.0 {
                Ok(val) => val@ == v,
                _ => false,
            }) && token_views(tokens@).skip(r.1 as int) == rest,
            ParseStep::Fail => r.0 is Err,
        },
    decreases tokens@.len() - pos, 1int,
{
    let ghost ts = token_views(tokens@).skip(pos as int);
    proof {
        lemma_parse_value_shrinks(ts);
    }
    let (rv, npos) = parse_value_at(tokens, pos);
    match rv {
        Ok(val) => {
            let ghost v = val@;
            let ghost rest = token_views(tokens@).skip(npos as int);
            proof {
                assert(rest.len() == tokens@.len() - npos);
            }
            if npos >= tokens.len() {
                return (Err(ParseError::new("error: an array is not closed")), npos);
            }
            proof {
                assert(rest[0] == tokens@[npos as int]@);
                assert(rest.drop_first() =~= token_views(tokens@).skip((npos + 1) as int));
            }
            let mut items2 = items;
            proof {
                assert(value_views(items2@.push(val)) =~= value_views(items2@).push(v));
            }
            items2.push(val);
            match &tokens[npos] {
                Token::Comma => parse_items_at(tokens, npos + 1, items2),
                Token::RightBracket => (Ok(Value::Array(items2)), npos + 1),
                _ => (Err(ParseError::new("error: a comma or a right bracket is expected")), npos),
            }
        },
        Err(e) => (Err(e), npos),
    }
}

/// The parser: the token sequence and a cursor over it.
pub struct Parser {
    tokens: Vec<Token>,
    pos: usize,
}

impl Parser {
    /// The cursor never runs past the tokens.
    pub closed spec fn wf(self) -> bool {
        self.pos <= self.tokens@.len()
    }

    /// The tokens not yet consumed.
    pub closed spec fn remaining(self) -> Seq<SpecToken> {
        token_views(self.tokens@).skip(self.pos as int)
    }

    /// A parser over the whole of `tokens`.
    pub fn new(tokens: Vec<Token>) -> (p: Parser)
        ensures
            p.wf(),
            p.remaining() == token_views(tokens@),
    {
        let p = Parser { tokens, pos: 0 };
        proof {
            assert(p.remaining() =~= token_views(p.tokens@));
        }
        p
    }

    /// Parses one value from the front of the tokens: exactly the value
    /// that [`spec_parse_value`] describes, or an error exactly where it
    /// fails. Tokens after the value are left unread, the permissive
    /// default for trailing input.
    pub fn parse(&mut self) -> (r: Result<Value, ParseError>)
        requires
            old(self).wf(),
        ensures
            final(self).wf(),
            match spec_parse_value(old(self).remaining()) {
                ParseStep::Val(v, rest) => (match r {
                    Ok(val) => val@ == v,
                    _ => false,
                }) && final(self).remaining() == rest,
                ParseStep::Fail => r is Err,
            },
    {
        let (rv, npos) = parse_value_at(&self.tokens, self.pos);
        self.pos = npos;
        rv
    }
}

} // verus!
