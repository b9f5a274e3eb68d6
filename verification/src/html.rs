//! A parser for a small subset of HTML: elements with quoted attributes,
//! text, and `<!...>` declarations, which are skipped.
//!
//! The grammar is given by the specification functions `nodes_at`,
//! `node_at` and `element_at`, which read a sequence of characters from a
//! position and give what they read and where they stopped.

use vstd::prelude::*;
use crate::dom::{Node, Tree, lemma_trees_push, trees};
use crate::text::{chars_of, string_of};

verus! {

/// Whether `c` is white space.
pub open spec fn is_space(c: char) -> bool {
    let n = c as u32;
    (0x09 <= n <= 0x0d) || n == 0x20 || n == 0x85 || n == 0xa0 || n == 0x1680 || (0x2000 <= n
        <= 0x200a) || n == 0x2028 || n == 0x2029 || n == 0x202f || n == 0x205f || n == 0x3000
}

/// Whether `c` may stand in a tag or attribute name: an ASCII letter or digit.
pub open spec fn is_name_char(c: char) -> bool {
    ('a' <= c <= 'z') || ('A' <= c <= 'Z') || ('0' <= c <= '9')
}

/// Whether `s` holds `c` at `pos`.
pub open spec fn at(s: Seq<char>, pos: int, c: char) -> bool {
    0 <= pos < s.len() && s[pos] == c
}

/// The first position from `pos` on that holds no white space.
pub open spec fn skip_spaces(s: Seq<char>, pos: int) -> int
    decreases s.len() - pos,
{
    if 0 <= pos < s.len() && is_space(s[pos]) {
        skip_spaces(s, pos + 1)
    } else {
        pos
    }
}

/// The first position from `pos` on that holds no name character.
pub open spec fn skip_name(s: Seq<char>, pos: int) -> int
    decreases s.len() - pos,
{
    if 0 <= pos < s.len() && is_name_char(s[pos]) {
        skip_name(s, pos + 1)
    } else {
        pos
    }
}

/// The first position from `pos` on that holds `stop`, or the end.
pub open spec fn skip_until(s: Seq<char>, pos: int, stop: char) -> int
    decreases s.len() - pos,
{
    if 0 <= pos < s.len() && s[pos] != stop {
        skip_until(s, pos + 1, stop)
    } else {
        pos
    }
}

/// Skipping goes forward and stays within the text.
pub proof fn lemma_skip_bounds(s: Seq<char>, pos: int, stop: char)
    requires
        0 <= pos <= s.len(),
    ensures
        pos <= skip_spaces(s, pos) <= s.len(),
        pos <= skip_name(s, pos) <= s.len(),
        pos <= skip_until(s, pos, stop) <= s.len(),
        pos < s.len() && s[pos] != stop ==> pos < skip_until(s, pos, stop),
        skip_until(s, pos, stop) < s.len() ==> s[skip_until(s, pos, stop)] == stop,
    decreases s.len() - pos,
{
    if pos < s.len() {
        lemma_skip_bounds(s, pos + 1, stop);
    }
}

/// An attribute value at `pos`: a quote, the characters up to the next
/// quote of the same kind, and that quote.
pub open spec fn attr_value_at(s: Seq<char>, pos: int) -> Option<(Seq<char>, int)> {
    if at(s, pos, '"') || at(s, pos, '\'') {
        let close = skip_until(s, pos + 1, s[pos]);
        if close < s.len() {
            Some((s.subrange(pos + 1, close), close + 1))
        } else {
            None
        }
    } else {
        None
    }
}

/// An attribute at `pos`: a name, `=`, and a quoted value.
pub open spec fn attr_at(s: Seq<char>, pos: int) -> Option<((Seq<char>, Seq<char>), int)> {
    let end = skip_name(s, pos);
    if at(s, end, '=') {
        match attr_value_at(s, end + 1) {
            Some((value, next)) => Some(((s.subrange(pos, end), value), next)),
            None => None,
        }
    } else {
        None
    }
}

/// An attribute that is read ends behind where it starts.
pub proof fn lemma_attr_advances(s: Seq<char>, pos: int)
    requires
        0 <= pos <= s.len(),
    ensures
        attr_at(s, pos) matches Some((_, next)) ==> pos + 3 <= next <= s.len(),
{
    lemma_skip_bounds(s, pos, ' ');
    let end = skip_name(s, pos);
    if at(s, end, '=') && (at(s, end + 1, '"') || at(s, end + 1, '\'')) {
        lemma_skip_bounds(s, end + 2, s[end + 1]);
    }
}

/// The attributes from `pos` up to the `>` that ends the start tag, each
/// after optional white space, and the position of that `>`.
pub open spec fn attrs_at(s: Seq<char>, pos: int) -> Option<(Seq<(Seq<char>, Seq<char>)>, int)>
    decreases s.len() - pos,
{
    if !(0 <= pos <= s.len()) {
        None
    } else {
        let p = skip_spaces(s, pos);
        if p >= s.len() {
            None
        } else if s[p] == '>' {
            Some((Seq::empty(), p))
        } else {
            match attr_at(s, p) {
                Some((a, next)) => {
                    proof {
                        lemma_skip_bounds(s, pos, ' ');
                        lemma_attr_advances(s, p);
                    }
                    match attrs_at(s, next) {
                        Some((rest, end)) => Some((seq![a] + rest, end)),
                        None => None,
                    }
                },
                None => None,
            }
        }
    }
}

/// The attributes that are read end at a `>` behind where they start.
pub proof fn lemma_attrs_end(s: Seq<char>, pos: int)
    requires
        0 <= pos <= s.len(),
    ensures
        attrs_at(s, pos) matches Some((_, end)) ==> pos <= end < s.len() && s[end] == '>',
    decreases s.len() - pos,
{
    lemma_skip_bounds(s, pos, ' ');
    let p = skip_spaces(s, pos);
    if p < s.len() && s[p] != '>' {
        lemma_attr_advances(s, p);
        match attr_at(s, p) {
            Some((a, next)) => {
                lemma_attrs_end(s, next);
            },
            None => {},
        }
    }
}

/// An element at `pos`: `<`, a tag name, attributes, `>`, child nodes,
/// and an end tag with the same name.
pub open spec fn element_at(s: Seq<char>, pos: int) -> Option<(Tree, int)>
    decreases s.len() - pos, 0nat,
{
    if !at(s, pos, '<') {
        None
    } else {
        let name_end = skip_name(s, pos + 1);
        let tag = s.subrange(pos + 1, name_end);
        match attrs_at(s, name_end) {
            Some((attrs, close)) => {
                proof {
                    lemma_skip_bounds(s, pos + 1, ' ');
                    lemma_attrs_end(s, name_end);
                }
                match nodes_at(s, close + 1) {
                    Some((children, end)) => {
                        let end_name = skip_name(s, end + 2);
                        if at(s, end, '<') && at(s, end + 1, '/') && s.subrange(end + 2, end_name)
                            == tag && at(s, end_name, '>') {
                            Some((Tree::Element { tag, attrs, children }, end_name + 1))
                        } else {
                            None
                        }
                    },
                    None => None,
                }
            },
            None => None,
        }
    }
}

/// A node at `pos`: an element where there is a `<`, else text up to the
/// next `<`.
pub open spec fn node_at(s: Seq<char>, pos: int) -> Option<(Tree, int)>
    decreases s.len() - pos, 1nat,
{
    if at(s, pos, '<') {
        element_at(s, pos)
    } else {
        let end = skip_until(s, pos, '<');
        Some((Tree::Text(s.subrange(pos, end)), end))
    }
}

/// The nodes from `pos` up to the end of the text or the next end tag,
/// and where they stop. White space before a node is skipped, and so is
/// a declaration, from `<!` up to the next `>`; that `>` is read as text.
pub open spec fn nodes_at(s: Seq<char>, pos: int) -> Option<(Seq<Tree>, int)>
    decreases s.len() - pos, 2nat,
{
    if !(0 <= pos <= s.len()) {
        None
    } else {
        let p = skip_spaces(s, pos);
        if at(s, p, '<') && at(s, p + 1, '!') {
            proof {
                lemma_skip_bounds(s, pos, ' ');
                lemma_skip_bounds(s, p, '>');
                lemma_skip_bounds(s, p + 1, '>');
            }
            nodes_at(s, skip_until(s, p, '>'))
        } else if p >= s.len() || (at(s, p, '<') && at(s, p + 1, '/')) {
            Some((Seq::empty(), p))
        } else {
            proof {
                lemma_skip_bounds(s, pos, ' ');
            }
            match node_at(s, p) {
                Some((node, next)) => if p < next <= s.len() {
                    match nodes_at(s, next) {
                        Some((rest, end)) => Some((seq![node] + rest, end)),
                        None => None,
                    }
                } else {
                    None
                },
                None => None,
            }
        }
    }
}

/// The nodes of the document `s`, or `None` where `s` is malformed. What
/// follows an end tag that nothing opened is not read.
pub open spec fn document_nodes(s: Seq<char>) -> Option<Seq<Tree>> {
    match nodes_at(s, 0) {
        Some((nodes, _)) => Some(nodes),
        None => None,
    }
}

/// The document `s` as one node: its only node where it has exactly one,
/// else an `html` element around its nodes.
pub open spec fn document(s: Seq<char>) -> Option<Tree> {
    match document_nodes(s) {
        Some(nodes) => if nodes.len() == 1 {
            Some(nodes[0])
        } else {
            Some(Tree::Element { tag: "html"@, attrs: Seq::empty(), children: nodes })
        },
        None => None,
    }
}

/// What is read ends behind where it starts, within the text.
pub proof fn lemma_nodes_advance(s: Seq<char>, pos: int)
    requires
        0 <= pos <= s.len(),
    ensures
        nodes_at(s, pos) matches Some((_, end)) ==> pos <= end <= s.len(),
    decreases s.len() - pos, 2nat,
{
    lemma_skip_bounds(s, pos, ' ');
    let p = skip_spaces(s, pos);
    if at(s, p, '<') && at(s, p + 1, '!') {
        lemma_skip_bounds(s, p, '>');
        lemma_skip_bounds(s, p + 1, '>');
        lemma_nodes_advance(s, skip_until(s, p, '>'));
    } else if p >= s.len() || (at(s, p, '<') && at(s, p + 1, '/')) {
    } else {
        lemma_node_advances(s, p);
        match node_at(s, p) {
            Some((node, next)) => {
                if p < next <= s.len() {
                    lemma_nodes_advance(s, next);
                }
            },
            None => {},
        }
    }
}

/// A node that is read ends behind where it starts, within the text.
pub proof fn lemma_node_advances(s: Seq<char>, pos: int)
    requires
        0 <= pos < s.len(),
    ensures
        node_at(s, pos) matches Some((_, next)) ==> pos < next <= s.len(),
    decreases s.len() - pos, 1nat,
{
    if at(s, pos, '<') {
        lemma_skip_bounds(s, pos + 1, ' ');
        let name_end = skip_name(s, pos + 1);
        lemma_attrs_end(s, name_end);
        match attrs_at(s, name_end) {
            Some((attrs, close)) => {
                lemma_nodes_advance(s, close + 1);
                match nodes_at(s, close + 1) {
                    Some((children, end)) => {
                        if end + 2 <= s.len() {
                            lemma_skip_bounds(s, end + 2, ' ');
                        }
                    },
                    None => {},
                }
            },
            None => {},
        }
    } else {
        lemma_skip_bounds(s, pos, '<');
    }
}

/// Whether `c` is white space.
pub fn is_whitespace(c: char) -> (r: bool)
    ensures
        r == is_space(c),
{
    let n = c as u32;
    (0x09 <= n && n <= 0x0d) || n == 0x20 || n == 0x85 || n == 0xa0 || n == 0x1680 || (0x2000 <= n
        && n <= 0x200a) || n == 0x2028 || n == 0x2029 || n == 0x202f || n == 0x205f || n == 0x3000
}

/// Whether `c` is an ASCII letter or digit.
pub fn is_alphanumeric(c: char) -> (r: bool)
    ensures
        r == is_name_char(c),
{
    ('a' <= c && c <= 'z') || ('A' <= c && c <= 'Z') || ('0' <= c && c <= '9')
}

/// A cursor into the characters of a document.
pub struct Parser {
    cursor: usize,
    data: Vec<char>,
}

impl Parser {
    /// The characters of the document.
    pub closed spec fn text(&self) -> Seq<char> {
        self.data@
    }

    /// The position of the cursor.
    pub closed spec fn position(&self) -> int {
        self.cursor as int
    }

    /// The cursor lies within the text or at its end.
    pub closed spec fn wf(&self) -> bool {
        self.cursor <= self.data.len()
    }

    /// A cursor at the start of `source`.
    fn new(source: &str) -> (p: Parser)
        ensures
            p.wf(),
            p.text() == source@,
            p.position() == 0,
    {
        Parser { cursor: 0, data: chars_of(source) }
    }

    /// The character at the cursor.
    fn next_char(&self) -> (c: char)
        requires
            self.wf(),
            self.position() < self.text().len(),
        ensures
            c == self.text()[self.position()],
    {
        self.data[self.cursor]
    }

    /// Whether the text holds `a` and then `b` at the cursor.
    fn starts_with(&self, a: char, b: char) -> (r: bool)
        requires
            self.wf(),
        ensures
            r == (at(self.text(), self.position(), a) && at(self.text(), self.position() + 1, b)),
    {
        self.cursor < self.data.len() && self.data.len() - self.cursor >= 2
            && self.data[self.cursor] == a && self.data[self.cursor + 1] == b
    }

    /// Whether the cursor is at the end of the text.
    fn eof(&self) -> (r: bool)
        requires
            self.wf(),
        ensures
            r == (self.position() >= self.text().len()),
    {
        self.cursor >= self.data.len()
    }

    /// Reads the character at the cursor.
    fn consume_char(&mut self) -> (c: char)
        requires
            old(self).wf(),
            old(self).position() < old(self).text().len(),
        ensures
            final(self).wf(),
            final(self).text() == old(self).text(),
            final(self).position() == old(self).position() + 1,
            c == old(self).text()[old(self).position()],
    {
        let c = self.data[self.cursor];
        self.cursor += 1;
        c
    }

    /// Reads the character `c`, or fails where the text holds another or
    /// has ended.
    fn expect(&mut self, c: char) -> (r: bool)
        requires
            old(self).wf(),
        ensures
            final(self).wf(),
            final(self).text() == old(self).text(),
            r == at(old(self).text(), old(self).position(), c),
            r ==> final(self).position() == old(self).position() + 1,
    {
        if self.cursor < self.data.len() && self.data[self.cursor] == c {
            self.cursor += 1;
            true
        } else {
            false
        }
    }

    /// Skips white space.
    fn consume_whitespace(&mut self)
        requires
            old(self).wf(),
        ensures
            final(self).wf(),
            final(self).text() == old(self).text(),
            final(self).position() == skip_spaces(old(self).text(), old(self).position()),
    {
        while self.cursor < self.data.len() && is_whitespace(self.data[self.cursor])
            invariant
                self.wf(),
                self.data@ == old(self).data@,
                skip_spaces(self.data@, self.cursor as int) == skip_spaces(
                    old(self).data@,
                    old(self).cursor as int,
                ),
            decreases self.data.len() - self.cursor,
        {
            self.cursor += 1;
        }
    }

    /// Reads the name characters at the cursor; there may be none.
    fn parse_tag_name(&mut self) -> (name: String)
        requires
            old(self).wf(),
        ensures
            final(self).wf(),
            final(self).text() == old(self).text(),
            final(self).position() == skip_name(old(self).text(), old(self).position()),
            name@ == old(self).text().subrange(old(self).position(), final(self).position()),
    {
        let start = self.cursor;
        while self.cursor < self.data.len() && is_alphanumeric(self.data[self.cursor])
            invariant
                self.wf(),
                start <= self.cursor,
                self.data@ == old(self).data@,
                skip_name(self.data@, self.cursor as int) == skip_name(
                    old(self).data@,
                    old(self).cursor as int,
                ),
            decreases self.data.len() - self.cursor,
        {
            self.cursor += 1;
        }
        string_of(&self.data, start, self.cursor)
    }

    /// Reads up to the next `stop`, or to the end.
    fn consume_until(&mut self, stop: char) -> (read: String)
        requires
            old(self).wf(),
        ensures
            final(self).wf(),
            final(self).text() == old(self).text(),
            final(self).position() == skip_until(old(self).text(), old(self).position(), stop),
            read@ == old(self).text().subrange(old(self).position(), final(self).position()),
    {
        let start = self.cursor;
        while self.cursor < self.data.len() && self.data[self.cursor] != stop
            invariant
                self.wf(),
                start <= self.cursor,
                self.data@ == old(self).data@,
                skip_until(self.data@, self.cursor as int, stop) == skip_until(
                    old(self).data@,
                    old(self).cursor as int,
                    stop,
                ),
            decreases self.data.len() - self.cursor,
        {
            self.cursor += 1;
        }
        string_of(&self.data, start, self.cursor)
    }

    /// Reads a node: an element or text.
    fn parse_node(&mut self) -> (r: Option<Node>)
        requires
            old(self).wf(),
            old(self).position() < old(self).text().len(),
        ensures
            final(self).wf(),
            final(self).text() == old(self).text(),
            match r {
                Some(n) => node_at(old(self).text(), old(self).position()) == Some(
                    (n@, final(self).position()),
                ),
                None => node_at(old(self).text(), old(self).position()) is None,
            },
        decreases old(self).text().len() - old(self).position(), 1nat,
    {
        if self.next_char() == '<' {
            self.parse_element()
        } else {
            Some(self.parse_text())
        }
    }

    /// Reads text up to the next `<`.
    fn parse_text(&mut self) -> (n: Node)
        requires
            old(self).wf(),
        ensures
            final(self).wf(),
            final(self).text() == old(self).text(),
            final(self).position() == skip_until(old(self).text(), old(self).position(), '<'),
            n@ == Tree::Text(
                old(self).text().subrange(old(self).position(), final(self).position()),
            ),
    {
        Node::Text(self.consume_until('<'))
    }

    /// Reads an element with everything inside it.
    fn parse_element(&mut self) -> (r: Option<Node>)
        requires
            old(self).wf(),
        ensures
            final(self).wf(),
            final(self).text() == old(self).text(),
            match r {
                Some(n) => element_at(old(self).text(), old(self).position()) == Some(
                    (n@, final(self).position()),
                ),
                None => element_at(old(self).text(), old(self).position()) is None,
            },
        decreases old(self).text().len() - old(self).position(), 0nat,
    {
        let ghost s = self.data@;
        let ghost pos = self.cursor as int;
        if !self.expect('<') {
            return None;
        }
        let tag_name = self.parse_tag_name();
        proof {
            lemma_skip_bounds(s, pos + 1, ' ');
            lemma_attrs_end(s, self.cursor as int);
        }
        let attrs = match self.parse_attributes() {
            Some(attrs) => attrs,
            None => {
                return None;
            },
        };
        if !self.expect('>') {
            return None;
        }
        let children = match self.parse_nodes() {
            Some(children) => children,
            None => {
                return None;
            },
        };
        proof {
            lemma_nodes_advance(s, self.cursor as int);
        }
        let ghost end = self.cursor as int;
        if !self.expect('<') {
            return None;
        }
        if !self.expect('/') {
            return None;
        }
        let end_name = self.parse_tag_name();
        if !crate::text::str_eq(end_name.as_str(), tag_name.as_str()) {
            return None;
        }
        if !self.expect('>') {
            return None;
        }
        Some(Node::Element { tag: tag_name, attrs, children })
    }

    /// Reads an attribute: a name, `=`, and a quoted value.
    fn parse_attr(&mut self) -> (r: Option<(String, String)>)
        requires
            old(self).wf(),
        ensures
            final(self).wf(),
            final(self).text() == old(self).text(),
            match r {
                Some(a) => attr_at(old(self).text(), old(self).position()) == Some(
                    ((a.0@, a.1@), final(self).position()),
                ),
                None => attr_at(old(self).text(), old(self).position()) is None,
            },
    {
        let name = self.parse_tag_name();
        if !self.expect('=') {
            return None;
        }
        match self.parse_attr_value() {
            Some(value) => Some((name, value)),
            None => None,
        }
    }

    /// Reads a quoted attribute value.
    fn parse_attr_value(&mut self) -> (r: Option<String>)
        requires
            old(self).wf(),
        ensures
            final(self).wf(),
            final(self).text() == old(self).text(),
            match r {
                Some(v) => attr_value_at(old(self).text(), old(self).position()) == Some(
                    (v@, final(self).position()),
                ),
                None => attr_value_at(old(self).text(), old(self).position()) is None,
            },
    {
        if self.eof() {
            return None;
        }
        let open_quote = self.next_char();
        if !(open_quote == '"' || open_quote == '\'') {
            return None;
        }
        self.cursor += 1;
        let value = self.consume_until(open_quote);
        proof {
            lemma_skip_bounds(self.data@, old(self).cursor + 1, open_quote);
        }
        if !self.expect(open_quote) {
            return None;
        }
        Some(value)
    }

    /// Reads attributes up to the `>` that ends the start tag.
    fn parse_attributes(&mut self) -> (r: Option<Vec<(String, String)>>)
        requires
            old(self).wf(),
        ensures
            final(self).wf(),
            final(self).text() == old(self).text(),
            match r {
                Some(attrs) => attrs_at(old(self).text(), old(self).position()) == Some(
                    (crate::dom::pairs(attrs@), final(self).position()),
                ),
                None => attrs_at(old(self).text(), old(self).position()) is None,
            },
    {
        let ghost s = self.data@;
        let ghost start = self.cursor as int;
        let mut attributes: Vec<(String, String)> = Vec::new();
        loop
            invariant
                self.wf(),
                self.data@ == s,
                s == old(self).data@,
                start == old(self).cursor,
                attrs_at(s, start) == (match attrs_at(s, self.cursor as int) {
                    Some((rest, end)) => Some((crate::dom::pairs(attributes@) + rest, end)),
                    None => None,
                }),
            decreases self.data.len() - self.cursor,
        {
            let ghost here = self.cursor as int;
            let ghost done = crate::dom::pairs(attributes@);
            self.consume_whitespace();
            if self.eof() {
                return None;
            }
            if self.next_char() == '>' {
                proof {
                    assert(done + Seq::<(Seq<char>, Seq<char>)>::empty() =~= done);
                }
                return Some(attributes);
            }
            proof {
                lemma_skip_bounds(s, here, ' ');
                lemma_attr_advances(s, self.cursor as int);
            }
            let (name, value) = match self.parse_attr() {
                Some(a) => a,
                None => {
                    return None;
                },
            };
            attributes.push((name, value));
            proof {
                let a = (name@, value@);
                assert(crate::dom::pairs(attributes@) =~= done.push(a));
                match attrs_at(s, self.cursor as int) {
                    Some((rest, end)) => {
                        assert(done + (seq![a] + rest) =~= done.push(a) + rest);
                    },
                    None => {},
                }
            }
        }
    }

    /// Reads nodes up to the end of the text or the next end tag.
    fn parse_nodes(&mut self) -> (r: Option<Vec<Node>>)
        requires
            old(self).wf(),
        ensures
            final(self).wf(),
            final(self).text() == old(self).text(),
            match r {
                Some(nodes) => nodes_at(old(self).text(), old(self).position()) == Some(
                    (trees(nodes@), final(self).position()),
                ),
                None => nodes_at(old(self).text(), old(self).position()) is None,
            },
        decreases old(self).text().len() - old(self).position(), 2nat,
    {
        let ghost s = self.data@;
        let ghost start = self.cursor as int;
        let mut nodes: Vec<Node> = Vec::new();
        loop
            invariant
                self.wf(),
                self.data@ == s,
                s == old(self).data@,
                start == old(self).cursor,
                start <= self.cursor,
                nodes_at(s, start) == (match nodes_at(s, self.cursor as int) {
                    Some((rest, end)) => Some((trees(nodes@) + rest, end)),
                    None => None,
                }),
            decreases self.data.len() - self.cursor,
        {
            let ghost here = self.cursor as int;
            let ghost done = trees(nodes@);
            proof {
                lemma_skip_bounds(s, here, ' ');
            }
            self.consume_whitespace();

            if self.starts_with('<', '!') {
                proof {
                    lemma_skip_bounds(s, self.cursor as int, '>');
                    lemma_skip_bounds(s, self.cursor as int + 1, '>');
                }
                self.consume_until('>');
                continue ;
            }
            if self.eof() || self.starts_with('<', '/') {
                proof {
                    assert(done + Seq::<Tree>::empty() =~= done);
                }
                return Some(nodes);
            }
            proof {
                lemma_node_advances(s, self.cursor as int);
            }
            let node = match self.parse_node() {
                Some(node) => node,
                None => {
                    return None;
                },
            };
            proof {
                lemma_trees_push(nodes@, node);
                match nodes_at(s, self.cursor as int) {
                    Some((rest, end)) => {
                        assert(done + (seq![node@] + rest) =~= done.push(node@) + rest);
                    },
                    None => {},
                }
            }
            nodes.push(node);
        }
    }

    /// The nodes of the document `source`, or `None` where it is malformed.
    pub fn parse_no_root(source: String) -> (r: Option<Vec<Node>>)
        ensures
            match r {
                Some(nodes) => document_nodes(source@) == Some(trees(nodes@)),
                None => document_nodes(source@) is None,
            },
    {
        let mut parser = Parser::new(source.as_str());
        parser.parse_nodes()
    }

    /// The document `source` as one node, or `None` where it is malformed.
    pub fn parse(source: String) -> (r: Option<Node>)
        ensures
            match r {
                Some(n) => document(source@) == Some(n@),
                None => document(source@) is None,
            },
    {
        match Parser::parse_no_root(source) {
            Some(nodes) => {
                let mut nodes = nodes;
                proof {
                    crate::dom::lemma_trees(nodes@);
                }
                if nodes.len() == 1 {
                    nodes.pop()
                } else {
                    let root = crate::dom::elem("html").add_children(nodes);
                    proof {
                        assert(Seq::<Tree>::empty() + trees(nodes@) =~= trees(nodes@));
                    }
                    Some(root)
                }
            },
            None => None,
        }
    }
}

} // verus!
