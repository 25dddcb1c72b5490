//! The parser: a cursor over the input's characters and the recursive
//! descent that builds nodes from it.
//!
//! Nesting in the input is nesting on the call stack, so the depth of the
//! stack grows with the depth of the document.

use vstd::prelude::*;
use crate::grammar::{at_close, lemma_scan_end, lemma_skip_ws, parse_document, parse_node, parse_siblings, parse_tag, parse_text, scan_end, skip_ws, Fault};
use crate::text::{chars_of, is_whitespace, is_ws, string_from, trimmed};
use crate::tree::{models, ElementData, Node, NodeType, Tree};

verus! {

/// Why a document could not be parsed.
#[derive(Debug, PartialEq, Eq)]
pub enum ParseError {
    /// A node was asked for where the input had ended.
    UnexpectedEndOfInput,
    /// An opening tag lacks its `<` or its `>`.
    MalformedTag,
    /// A closing tag lacks its `<`, its `/` or its `>`.
    MalformedClosingTag,
    /// A closing tag names another element than the one it closes.
    TagMismatch { expected: String, found: String },
}

impl ParseError {
    /// The model of this error.
    pub open spec fn model(&self) -> Fault {
        match self {
            ParseError::UnexpectedEndOfInput => Fault::UnexpectedEndOfInput,
            ParseError::MalformedTag => Fault::MalformedTag,
            ParseError::MalformedClosingTag => Fault::MalformedClosingTag,
            ParseError::TagMismatch { expected, found } => Fault::TagMismatch {
                expected: expected@,
                found: found@,
            },
        }
    }
}

/// How a parse result on nodes relates to its model.
pub open spec fn node_result(r: Result<Node, ParseError>, m: Result<(Tree, int), Fault>, end: int) -> bool {
    match r {
        Ok(n) => m == Ok::<(Tree, int), Fault>((n.model(), end)),
        Err(e) => m == Err::<(Tree, int), Fault>(e.model()),
    }
}

/// The input of a parse and a cursor into it.
pub struct Parser {
    pos: usize,
    input: Vec<char>,
}

impl Parser {
    /// The characters being parsed.
    pub closed spec fn source(&self) -> Seq<char> {
        self.input@
    }

    /// The position of the cursor.
    pub closed spec fn cursor(&self) -> int {
        self.pos as int
    }

    /// The cursor stands within the input or just past its end.
    pub closed spec fn wf(&self) -> bool {
        self.pos <= self.input@.len() <= usize::MAX
    }

    /// A parser at the start of `input`.
    pub fn new(input: &str) -> (r: Parser)
        ensures
            r.wf(),
            r.source() == input@,
            r.cursor() == 0,
    {
        let chars = chars_of(input);
        // the length of a vector fits a usize, which keeps the cursor's
        // arithmetic in bounds
        let len: usize = chars.len();
        assert(chars@.len() == len);
        Parser { pos: 0, input: chars }
    }

    /// Parses the siblings that start at the cursor: nodes until the end of
    /// the input or the start of a closing tag, which is left unread.
    pub fn build_tree(&mut self) -> (r: Result<Vec<Node>, ParseError>)
        requires
            old(self).wf(),
        ensures
            final(self).wf(),
            final(self).source() == old(self).source(),
            old(self).cursor() <= final(self).cursor(),
            match r {
                Ok(ns) => parse_siblings(old(self).source(), old(self).cursor())
                    == Ok::<_, Fault>((models(ns@), final(self).cursor())),
                Err(e) => parse_siblings(old(self).source(), old(self).cursor()) == Err::<
                    (Seq<Tree>, int),
                    Fault,
                >(e.model()),
            },
        decreases old(self).source().len() - old(self).cursor(), 2int,
    {
        let ghost s = self.input@;
        let ghost p0 = self.pos as int;
        let mut children: Vec<Node> = Vec::new();
        loop
            invariant
                self.wf(),
                self.input@ == s,
                s == old(self).input@,
                p0 == old(self).pos,
                p0 <= self.pos,
                parse_siblings(s, p0) == prepend(models(children@), parse_siblings(s, self.pos as int)),
            decreases s.len() - self.pos,
        {
            let ghost p = self.pos as int;
            proof {
                lemma_skip_ws(s, p);
            }
            self.consume_whitespaces();
            let ghost q = self.pos as int;
            if self.file_not_finished() || self.starts_with("</") {
                proof {
                    reveal_strlit("</");
                    if q < s.len() {
                        assert(s.subrange(q, q + 2)[0] == s[q]);
                        assert(s.subrange(q, q + 2)[1] == s[q + 1]);
                    }
                    assert(models(children@) + Seq::empty() =~= models(children@));
                }
                return Ok(children);
            }
            proof {
                reveal_strlit("</");
                if at_close(s, q) {
                    assert(s.subrange(q, q + 2) =~= "</"@);
                }
            }
            match self.parse_node() {
                Ok(n) => {
                    proof {
                        assert(models(children@.push(n)) =~= models(children@) + seq![n.model()]);
                        lemma_prepend_prepend(models(children@), seq![n.model()], parse_siblings(s, self.pos as int));
                    }
                    children.push(n);
                },
                Err(e) => {
                    return Err(e);
                },
            }
        }
    }

    /// Whether the cursor has reached the end of the input.
    pub fn file_not_finished(&self) -> (r: bool)
        ensures
            r == (self.cursor() >= self.source().len()),
    {
        self.pos >= self.input.len()
    }

    /// Whether the input at the cursor begins with `s`.
    pub fn starts_with(&self, s: &str) -> (r: bool)
        requires
            self.wf(),
        ensures
            r == (self.cursor() + s@.len() <= self.source().len()
                && self.source().subrange(self.cursor(), self.cursor() + s@.len()) == s@),
    {
        let t = chars_of(s);
        if t.len() > self.input.len() - self.pos {
            return false;
        }
        let mut i: usize = 0;
        while i < t.len()
            invariant
                t@ == s@,
                self.wf(),
                self.pos + t@.len() <= self.input@.len(),
                0 <= i <= t@.len(),
                forall|j: int| 0 <= j < i ==> self.input@[self.pos + j] == t@[j],
            decreases t@.len() - i,
        {
            if self.input[self.pos + i] != t[i] {
                assert(self.input@.subrange(self.pos as int, self.pos + t@.len())[i as int] != t@[i as int]);
                return false;
            }
            i = i + 1;
        }
        assert(self.input@.subrange(self.pos as int, self.pos + t@.len()) =~= t@);
        true
    }

    /// Parses one node at the cursor: an element where it stands on `<`,
    /// else text.
    pub fn parse_node(&mut self) -> (r: Result<Node, ParseError>)
        requires
            old(self).wf(),
        ensures
            final(self).wf(),
            final(self).source() == old(self).source(),
            old(self).cursor() <= final(self).cursor(),
            node_result(r, parse_node(old(self).source(), old(self).cursor()), final(self).cursor()),
            r is Ok ==> old(self).cursor() < final(self).cursor(),
        decreases old(self).source().len() - old(self).cursor(), 1int,
    {
        match self.get_next_char() {
            None => Err(ParseError::UnexpectedEndOfInput),
            Some(c) => {
                if c == '<' {
                    self.parse_tag()
                } else {
                    self.parse_value()
                }
            },
        }
    }

    /// Parses an element at the cursor: its opening tag, its children and
    /// a closing tag of the same name.
    pub fn parse_tag(&mut self) -> (r: Result<Node, ParseError>)
        requires
            old(self).wf(),
        ensures
            final(self).wf(),
            final(self).source() == old(self).source(),
            old(self).cursor() <= final(self).cursor(),
            node_result(r, parse_tag(old(self).source(), old(self).cursor()), final(self).cursor()),
            r is Ok ==> old(self).cursor() < final(self).cursor(),
        decreases old(self).source().len() - old(self).cursor(), 0int,
    {
        let ghost s = self.input@;
        let ghost p = self.pos as int;
        if self.consume_next_char() != Some('<') {
            return Err(ParseError::MalformedTag);
        }
        proof {
            lemma_scan_end(s, p + 1, '>');
        }
        let tag_name = self.read_until('>');
        if self.consume_next_char() != Some('>') {
            return Err(ParseError::MalformedTag);
        }
        let children = match self.build_tree() {
            Ok(children) => children,
            Err(e) => {
                return Err(e);
            },
        };
        if self.consume_next_char() != Some('<') {
            return Err(ParseError::MalformedClosingTag);
        }
        if self.consume_next_char() != Some('/') {
            return Err(ParseError::MalformedClosingTag);
        }
        proof {
            lemma_scan_end(s, self.pos as int, '>');
        }
        let found = self.read_until('>');
        if found != tag_name {
            return Err(ParseError::TagMismatch { expected: tag_name, found });
        }
        if self.consume_next_char() != Some('>') {
            return Err(ParseError::MalformedClosingTag);
        }
        let node = Node {
            children,
            node_type: NodeType::Element(ElementData { tag_name }),
        };
        proof {
            assert(node.model().children =~= models(node.children@));
        }
        Ok(node)
    }

    /// Parses a text node at the cursor: the characters up to the next `<`,
    /// without whitespace at either end. Run on whitespace alone it yields
    /// empty text; `build_tree` never does so, since it skips whitespace
    /// before each node.
    pub fn parse_value(&mut self) -> (r: Result<Node, ParseError>)
        requires
            old(self).wf(),
        ensures
            final(self).wf(),
            final(self).source() == old(self).source(),
            node_result(r, parse_text(old(self).source(), old(self).cursor()), final(self).cursor()),
            r is Ok,
            old(self).cursor() < old(self).source().len() && old(self).source()[old(self).cursor()]
                != '<' ==> old(self).cursor() < final(self).cursor(),
    {
        proof {
            lemma_scan_end(self.input@, self.pos as int, '<');
        }
        let value = self.read_until('<');
        let content = trimmed(value.as_str());
        let node = Node { children: Vec::new(), node_type: NodeType::Text(content) };
        proof {
            assert(node.model().children =~= Seq::<Tree>::empty());
        }
        Ok(node)
    }

    /// The character at the cursor, if the input has not ended.
    pub fn get_next_char(&self) -> (r: Option<char>)
        requires
            self.wf(),
        ensures
            r == if self.cursor() < self.source().len() {
                Some(self.source()[self.cursor()])
            } else {
                None::<char>
            },
    {
        if self.pos < self.input.len() {
            Some(self.input[self.pos])
        } else {
            None
        }
    }

    /// The character at the cursor, if the input has not ended; the cursor
    /// then moves past it.
    pub fn consume_next_char(&mut self) -> (r: Option<char>)
        requires
            old(self).wf(),
        ensures
            final(self).wf(),
            final(self).source() == old(self).source(),
            if old(self).cursor() < old(self).source().len() {
                r == Some(old(self).source()[old(self).cursor()]) && final(self).cursor()
                    == old(self).cursor() + 1
            } else {
                r == None::<char> && final(self).cursor() == old(self).cursor()
            },
    {
        match self.get_next_char() {
            Some(c) => {
                self.pos = self.pos + 1;
                Some(c)
            },
            None => None,
        }
    }

    /// Moves the cursor past the whitespace at it.
    pub fn consume_whitespaces(&mut self)
        requires
            old(self).wf(),
        ensures
            final(self).wf(),
            final(self).source() == old(self).source(),
            final(self).cursor() == skip_ws(old(self).source(), old(self).cursor()),
    {
        while self.pos < self.input.len() && is_whitespace(self.input[self.pos])
            invariant
                self.wf(),
                self.input@ == old(self).input@,
                skip_ws(self.input@, self.pos as int) == skip_ws(old(self).input@, old(self).pos as int),
            decreases self.input@.len() - self.pos,
        {
            self.pos = self.pos + 1;
        }
    }

    /// The characters from the cursor up to the next `character` or the end
    /// of the input; the cursor moves to that `character`, which is left
    /// unread.
    pub fn read_until(&mut self, character: char) -> (r: String)
        requires
            old(self).wf(),
        ensures
            final(self).wf(),
            final(self).source() == old(self).source(),
            final(self).cursor() == scan_end(old(self).source(), old(self).cursor(), character),
            r@ == old(self).source().subrange(old(self).cursor(), final(self).cursor()),
    {
        let start = self.pos;
        while self.pos < self.input.len() && self.input[self.pos] != character
            invariant
                self.wf(),
                start <= self.pos,
                self.input@ == old(self).input@,
                start == old(self).pos,
                scan_end(self.input@, self.pos as int, character) == scan_end(old(self).input@, start as int, character),
            decreases self.input@.len() - self.pos,
        {
            self.pos = self.pos + 1;
        }
        string_from(&self.input, start, self.pos)
    }
}

/// Results of a sibling sequence, with `ts` put before the nodes.
pub open spec fn prepend(ts: Seq<Tree>, r: Result<(Seq<Tree>, int), Fault>) -> Result<(Seq<Tree>, int), Fault> {
    match r {
        Ok((us, e)) => Ok((ts + us, e)),
        Err(x) => Err(x),
    }
}

/// Putting `b` and then `a` before a result puts `a + b` before it.
proof fn lemma_prepend_prepend(a: Seq<Tree>, b: Seq<Tree>, r: Result<(Seq<Tree>, int), Fault>)
    ensures
        prepend(a, prepend(b, r)) == prepend(a + b, r),
{
    if let Ok((us, e)) = r {
        assert(a + (b + us) =~= (a + b) + us);
    }
}

/// Parses a whole document.
pub fn parse(input: &str) -> (r: Result<Vec<Node>, ParseError>)
    ensures
        match r {
            Ok(ns) => parse_document(input@) == Ok::<_, Fault>(models(ns@)),
            Err(e) => parse_document(input@) == Err::<Seq<Tree>, Fault>(e.model()),
        },
{
    let mut p = Parser::new(input);
    p.build_tree()
}

} // verus!
