//! The document tree: elements with attributes and children, and text.

use vstd::prelude::*;
use vstd::string::StringExecFns;
use crate::html::{Parser, document_nodes};
use crate::text::{chars_of, push_char, str_eq};

verus! {

/// A node of the document tree.
#[derive(Debug)]
pub enum Node {
    Element { tag: String, attrs: Vec<(String, String)>, children: Vec<Node> },
    Text(String),
}

/// The mathematical model of a node.
pub enum Tree {
    Element { tag: Seq<char>, attrs: Seq<(Seq<char>, Seq<char>)>, children: Seq<Tree> },
    Text(Seq<char>),
}

/// The models of attribute pairs.
pub open spec fn pairs(attrs: Seq<(String, String)>) -> Seq<(Seq<char>, Seq<char>)> {
    Seq::new(attrs.len(), |i: int| (attrs[i].0@, attrs[i].1@))
}

/// The models of a sequence of nodes.
pub open spec fn trees(nodes: Seq<Node>) -> Seq<Tree>
    decreases nodes,
{
    if nodes.len() == 0 {
        Seq::empty()
    } else {
        trees(nodes.drop_last()).push(nodes.last()@)
    }
}

impl View for Node {
    type V = Tree;

    open spec fn view(&self) -> Tree
        decreases self,
    {
        match self {
            Node::Element { tag, attrs, children } => Tree::Element {
                tag: tag@,
                attrs: pairs(attrs@),
                children: trees(children@),
            },
            Node::Text(t) => Tree::Text(t@),
        }
    }
}

/// `trees` maps the nodes one by one.
pub proof fn lemma_trees(nodes: Seq<Node>)
    ensures
        trees(nodes).len() == nodes.len(),
        forall|i: int| 0 <= i < nodes.len() ==> #[trigger] trees(nodes)[i] == nodes[i]@,
    decreases nodes.len(),
{
    if nodes.len() > 0 {
        lemma_trees(nodes.drop_last());
        assert(trees(nodes) == trees(nodes.drop_last()).push(nodes.last()@));
        assert forall|i: int| 0 <= i < nodes.len() implies #[trigger] trees(nodes)[i] == nodes[i]@ by {
            if i < nodes.len() - 1 {
                assert(nodes.drop_last()[i] == nodes[i]);
                assert(trees(nodes.drop_last())[i] == nodes.drop_last()[i]@);
            }
        }
    }
}

/// `trees` of a sequence with one more node.
pub proof fn lemma_trees_push(nodes: Seq<Node>, n: Node)
    ensures
        trees(nodes.push(n)) == trees(nodes).push(n@),
{
    assert(nodes.push(n).drop_last() =~= nodes);
}

/// `s` cut at each `sep`: the pieces between the separators, in order.
/// There is one piece more than there are separators, so the empty
/// sequence gives one empty piece.
pub open spec fn split(s: Seq<char>, sep: char) -> Seq<Seq<char>>
    decreases s.len(),
{
    if s.len() == 0 {
        seq![Seq::empty()]
    } else {
        let before = split(s.drop_last(), sep);
        if s.last() == sep {
            before.push(Seq::empty())
        } else {
            before.drop_last().push(before.last().push(s.last()))
        }
    }
}

/// Whether `i` is the first position of `attrs` that holds the name `name`.
pub open spec fn attr_at(attrs: Seq<(Seq<char>, Seq<char>)>, name: Seq<char>, i: int) -> bool {
    &&& 0 <= i < attrs.len()
    &&& attrs[i].0 == name
    &&& forall|j: int| 0 <= j < i ==> attrs[j].0 != name
}

/// The concatenation of the text of `nodes[..n]`.
pub open spec fn text_upto(nodes: Seq<Tree>, n: nat) -> Seq<char>
    decreases nodes, n,
{
    if n == 0 || n > nodes.len() {
        Seq::empty()
    } else {
        text_upto(nodes, (n - 1) as nat) + nodes[n - 1].text_content()
    }
}

/// The elements with tag `tag` in `nodes[..n]` and below, in document order.
pub open spec fn tagged_upto(nodes: Seq<Tree>, tag: Seq<char>, n: nat) -> Seq<Tree>
    decreases nodes, n,
{
    if n == 0 || n > nodes.len() {
        Seq::empty()
    } else {
        tagged_upto(nodes, tag, (n - 1) as nat) + nodes[n - 1].elements_by_tag_name(tag)
    }
}

/// The markup of `nodes[..n]`, one after the other.
pub open spec fn markup_upto(nodes: Seq<Tree>, n: nat) -> Seq<char>
    decreases nodes, n,
{
    if n == 0 || n > nodes.len() {
        Seq::empty()
    } else {
        markup_upto(nodes, (n - 1) as nat) + nodes[n - 1].markup()
    }
}

/// The markup of `attrs[..n]`: each as a space, the name, `="`, the value
/// and `"`.
pub open spec fn attrs_markup(attrs: Seq<(Seq<char>, Seq<char>)>, n: nat) -> Seq<char>
    decreases n,
{
    if n == 0 || n > attrs.len() {
        Seq::empty()
    } else {
        attrs_markup(attrs, (n - 1) as nat) + seq![' '] + attrs[n - 1].0 + seq!['=', '"'] + attrs[n
            - 1].1 + seq!['"']
    }
}

impl Tree {
    /// The node's children; a text node has none.
    pub open spec fn children(self) -> Seq<Tree> {
        match self {
            Tree::Element { children, .. } => children,
            Tree::Text(_) => Seq::empty(),
        }
    }

    /// The value of the first attribute named `name`, if there is one.
    pub open spec fn attribute(self, name: Seq<char>) -> Option<Seq<char>> {
        match self {
            Tree::Element { attrs, .. } => if exists|i: int| attr_at(attrs, name, i) {
                Some(attrs[choose|i: int| attr_at(attrs, name, i)].1)
            } else {
                None
            },
            Tree::Text(_) => None,
        }
    }

    /// The value of the `id` attribute.
    pub open spec fn id(self) -> Option<Seq<char>> {
        self.attribute("id"@)
    }

    /// The pieces of the `class` attribute between spaces, as a set; empty
    /// where there is no such attribute.
    pub open spec fn classes(self) -> Set<Seq<char>> {
        match self.attribute("class"@) {
            Some(v) => split(v, ' ').to_set(),
            None => Set::empty(),
        }
    }

    /// The text of the node and everything below it, in document order.
    pub open spec fn text_content(self) -> Seq<char>
        decreases self,
    {
        match self {
            Tree::Element { children, .. } => text_upto(children, children.len()),
            Tree::Text(t) => t,
        }
    }

    /// The elements with tag `tag` among the node and everything below
    /// it, in document order.
    pub open spec fn elements_by_tag_name(self, tag: Seq<char>) -> Seq<Tree>
        decreases self,
    {
        match self {
            Tree::Element { tag: own, children, .. } => (if own == tag {
                seq![self]
            } else {
                Seq::empty()
            }) + tagged_upto(children, tag, children.len()),
            Tree::Text(_) => Seq::empty(),
        }
    }

    /// The node written as markup: a text node as its text, an element as
    /// its start tag with the attributes, its children, and its end tag.
    pub open spec fn markup(self) -> Seq<char>
        decreases self,
    {
        match self {
            Tree::Element { tag, attrs, children } => seq!['<'] + tag + attrs_markup(
                attrs,
                attrs.len(),
            ) + seq!['>'] + markup_upto(children, children.len()) + seq!['<', '/'] + tag + seq!['>'],
            Tree::Text(t) => t,
        }
    }

    /// The node with one more child; a text node takes none.
    pub open spec fn with_child(self, c: Tree) -> Tree {
        match self {
            Tree::Element { tag, attrs, children } => Tree::Element {
                tag,
                attrs,
                children: children.push(c),
            },
            Tree::Text(_) => self,
        }
    }

    /// The node with more children; a text node takes none.
    pub open spec fn with_children(self, cs: Seq<Tree>) -> Tree {
        match self {
            Tree::Element { tag, attrs, children } => Tree::Element {
                tag,
                attrs,
                children: children + cs,
            },
            Tree::Text(_) => self,
        }
    }

    /// The node with its children replaced; a text node takes none.
    pub open spec fn with_only_children(self, cs: Seq<Tree>) -> Tree {
        match self {
            Tree::Element { tag, attrs, children } => Tree::Element { tag, attrs, children: cs },
            Tree::Text(_) => self,
        }
    }

    /// The node with more attributes; a text node takes none.
    pub open spec fn with_attrs(self, more: Seq<(Seq<char>, Seq<char>)>) -> Tree {
        match self {
            Tree::Element { tag, attrs, children } => Tree::Element {
                tag,
                attrs: attrs + more,
                children,
            },
            Tree::Text(_) => self,
        }
    }
}

/// The names that an element's `class` attribute lists.
#[derive(Debug)]
pub struct ClassSet {
    names: Vec<String>,
}

impl ClassSet {
    /// The names as a set.
    pub closed spec fn view(self) -> Set<Seq<char>> {
        Seq::new(self.names@.len(), |i: int| self.names@[i]@).to_set()
    }

    /// Whether `name` is one of the names.
    pub fn contains(&self, name: &str) -> (r: bool)
        ensures
            r == self@.contains(name@),
    {
        let ghost s = Seq::new(self.names@.len(), |i: int| self.names@[i]@);
        let mut i: usize = 0;
        while i < self.names.len()
            invariant
                i <= self.names.len(),
                s == Seq::new(self.names@.len(), |i: int| self.names@[i]@),
                forall|j: int| 0 <= j < i ==> s[j] != name@,
            decreases self.names.len() - i,
        {
            if str_eq(self.names[i].as_str(), name) {
                assert(s[i as int] == name@);
                assert(s.contains(name@));
                return true;
            }
            i += 1;
        }
        assert(!s.contains(name@));
        false
    }

    /// Whether there are no names.
    pub fn is_empty(&self) -> (r: bool)
        ensures
            r == (self@ == Set::<Seq<char>>::empty()),
    {
        let ghost s = Seq::new(self.names@.len(), |i: int| self.names@[i]@);
        let r = self.names.len() == 0;
        proof {
            if r {
                assert(s.to_set() =~= Set::<Seq<char>>::empty());
            } else {
                assert(s.contains(s[0]));
                assert(self@.contains(s[0]));
            }
        }
        r
    }
}

/// The pieces of `value` between spaces.
fn split_spaces(value: &str) -> (names: Vec<String>)
    ensures
        Seq::new(names@.len(), |i: int| names@[i]@) == split(value@, ' '),
{
    let chars = chars_of(value);
    let mut names: Vec<String> = Vec::new();
    let mut current = String::new();
    let mut i: usize = 0;
    assert(chars@.take(0) =~= Seq::empty());
    while i < chars.len()
        invariant
            i <= chars.len(),
            chars@ == value@,
            Seq::new(names@.len(), |j: int| names@[j]@).push(current@) == split(
                chars@.take(i as int),
                ' ',
            ),
        decreases chars.len() - i,
    {
        let ghost before = Seq::new(names@.len(), |j: int| names@[j]@);
        let ghost piece = current@;
        let c = chars[i];
        proof {
            assert(chars@.take(i + 1).drop_last() =~= chars@.take(i as int));
            assert(chars@.take(i + 1).last() == c);
            assert(before.push(piece).drop_last() =~= before);
        }
        if c == ' ' {
            names.push(current);
            current = String::new();
            assert(Seq::new(names@.len(), |j: int| names@[j]@) =~= before.push(piece));
        } else {
            push_char(&mut current, c);
        }
        i += 1;
    }
    proof {
        assert(chars@.take(chars.len() as int) =~= chars@);
    }
    let ghost before = Seq::new(names@.len(), |j: int| names@[j]@);
    names.push(current);
    assert(Seq::new(names@.len(), |j: int| names@[j]@) =~= before.push(current@));
    names
}

impl Node {
    /// An element without attributes and children.
    pub fn elem(tag: &str) -> (n: Self)
        ensures
            n@ == (Tree::Element { tag: tag@, attrs: Seq::empty(), children: Seq::empty() }),
    {
        let n = Node::Element { tag: tag.to_owned(), attrs: Vec::new(), children: Vec::new() };
        proof {
            assert(n@->attrs =~= Seq::empty());
        }
        n
    }

    /// A text node.
    pub fn text(t: &str) -> (n: Self)
        ensures
            n@ == Tree::Text(t@),
    {
        Node::Text(t.to_owned())
    }

    /// The node with one more child, a text node.
    pub fn add_text(self, t: &str) -> (r: Self)
        ensures
            r@ == self@.with_child(Tree::Text(t@)),
    {
        self.add_child(text(t))
    }

    /// The node with one more child; a text node is returned as it is.
    pub fn add_child(self, c: Self) -> (r: Self)
        ensures
            r@ == self@.with_child(c@),
    {
        match self {
            Node::Element { tag, attrs, children } => {
                let mut children = children;
                proof {
                    lemma_trees_push(children@, c);
                }
                children.push(c);
                Node::Element { tag, attrs, children }
            },
            Node::Text(t) => Node::Text(t),
        }
    }

    /// The node with the children `cs` after its own; a text node is
    /// returned as it is.
    pub fn add_children(self, cs: Vec<Self>) -> (r: Self)
        ensures
            r@ == self@.with_children(trees(cs@)),
    {
        match self {
            Node::Element { tag, attrs, children } => {
                let mut children = children;
                let mut cs = cs;
                proof {
                    lemma_trees(children@);
                    lemma_trees(cs@);
                    lemma_trees(children@ + cs@);
                    assert(trees(children@ + cs@) =~= trees(children@) + trees(cs@));
                }
                children.append(&mut cs);
                Node::Element { tag, attrs, children }
            },
            Node::Text(t) => Node::Text(t),
        }
    }

    /// The node with one more attribute; a text node is returned as it is.
    pub fn add_attr(self, key: &str, value: &str) -> (r: Self)
        ensures
            r@ == self@.with_attrs(seq![(key@, value@)]),
    {
        match self {
            Node::Element { tag, attrs, children } => {
                let mut attrs = attrs;
                let ghost before = attrs@;
                attrs.push((key.to_owned(), value.to_owned()));
                proof {
                    assert(pairs(attrs@) =~= pairs(before) + seq![(key@, value@)]);
                }
                Node::Element { tag, attrs, children }
            },
            Node::Text(t) => Node::Text(t),
        }
    }

    /// The node with the attributes `kvs` after its own; a text node is
    /// returned as it is.
    pub fn add_attrs(self, kvs: Vec<(String, String)>) -> (r: Self)
        ensures
            r@ == self@.with_attrs(pairs(kvs@)),
    {
        match self {
            Node::Element { tag, attrs, children } => {
                let mut attrs = attrs;
                let mut kvs = kvs;
                let ghost before = attrs@;
                let ghost more = kvs@;
                attrs.append(&mut kvs);
                proof {
                    assert(pairs(attrs@) =~= pairs(before) + pairs(more));
                }
                Node::Element { tag, attrs, children }
            },
            Node::Text(t) => Node::Text(t),
        }
    }

    /// The value of the node's first attribute named `name`.
    pub fn get_attribute(&self, name: &str) -> (r: Option<&str>)
        ensures
            match r {
                Some(v) => self@.attribute(name@) == Some(v@),
                None => self@.attribute(name@) is None,
            },
    {
        match self {
            Node::Element { attrs, .. } => {
                let mut i: usize = 0;
                while i < attrs.len()
                    invariant
                        i <= attrs.len(),
                        self is Element,
                        self->attrs == *attrs,
                        forall|j: int| 0 <= j < i ==> pairs(attrs@)[j].0 != name@,
                    decreases attrs.len() - i,
                {
                    if str_eq(attrs[i].0.as_str(), name) {
                        proof {
                            let ps = pairs(attrs@);
                            assert(attr_at(ps, name@, i as int));
                            assert forall|k: int| attr_at(ps, name@, k) implies k == i by {}
                        }
                        return Some(attrs[i].1.as_str());
                    }
                    i += 1;
                }
                None
            },
            Node::Text(_) => None,
        }
    }

    /// The value of the `id` attribute.
    pub fn get_id(&self) -> (r: Option<&str>)
        ensures
            match r {
                Some(v) => self@.id() == Some(v@),
                None => self@.id() is None,
            },
    {
        self.get_attribute("id")
    }

    /// The names that the `class` attribute lists between spaces.
    pub fn get_classes(&self) -> (r: ClassSet)
        ensures
            r@ == self@.classes(),
    {
        match self.get_attribute("class") {
            Some(v) => ClassSet { names: split_spaces(v) },
            None => {
                let r = ClassSet { names: Vec::new() };
                assert(r@ =~= Set::<Seq<char>>::empty());
                r
            },
        }
    }

    /// The text of the node and everything below it, in document order.
    pub fn get_text_content(&self) -> (r: String)
        ensures
            r@ == self@.text_content(),
        decreases self,
    {
        match self {
            Node::Element { children, .. } => {
                let mut content = String::new();
                let mut i: usize = 0;
                proof {
                    lemma_trees(children@);
                }
                while i < children.len()
                    invariant
                        i <= children.len(),
                        self is Element,
                        self->children == *children,
                        trees(children@).len() == children.len(),
                        forall|j: int|
                            0 <= j < children.len() ==> #[trigger] trees(children@)[j]
                                == children@[j]@,
                        content@ == text_upto(trees(children@), i as nat),
                    decreases children.len() - i,
                {
                    let piece = children[i].get_text_content();
                    content.append(piece.as_str());
                    i += 1;
                }
                content
            },
            Node::Text(t) => t.clone(),
        }
    }

    /// The elements with tag `tag_name` among the node and everything
    /// below it, in document order.
    pub fn get_elements_by_tag_name(&self, tag_name: &str) -> (r: Vec<&Self>)
        ensures
            r@.len() == self@.elements_by_tag_name(tag_name@).len(),
            forall|i: int| 0 <= i < r@.len() ==> (#[trigger] r@[i])@ == self@.elements_by_tag_name(tag_name@)[i],
        decreases self,
    {
        match self {
            Node::Element { tag, children, .. } => {
                let mut result: Vec<&Self> = Vec::new();
                if str_eq(tag.as_str(), tag_name) {
                    result.push(self);
                }
                let ghost own = result@;
                let ghost kids = trees(children@);
                proof {
                    lemma_trees(children@);
                }
                let mut i: usize = 0;
                while i < children.len()
                    invariant
                        i <= children.len(),
                        self is Element,
                        self->children == *children,
                        kids == trees(children@),
                        kids.len() == children.len(),
                        forall|j: int| 0 <= j < children.len() ==> #[trigger] kids[j] == children@[j]@,
                        result@.len() == own.len() + tagged_upto(kids, tag_name@, i as nat).len(),
                        forall|j: int| 0 <= j < own.len() ==> result@[j] == own[j],
                        forall|j: int|
                            own.len() <= j < result@.len() ==> (#[trigger] result@[j])@ == tagged_upto(
                                kids,
                                tag_name@,
                                i as nat,
                            )[j - own.len()],
                    decreases children.len() - i,
                {
                    let mut found = children[i].get_elements_by_tag_name(tag_name);
                    result.append(&mut found);
                    i += 1;
                }
                proof {
                    let all = self@.elements_by_tag_name(tag_name@);
                    let below = tagged_upto(kids, tag_name@, children.len() as nat);
                    if tag@ == tag_name@ {
                        assert(all == seq![self@] + below);
                    } else {
                        assert(all == Seq::<Tree>::empty() + below);
                    }
                    assert forall|j: int| 0 <= j < result@.len() implies (#[trigger] result@[j])@
                        == all[j] by {
                        if j < own.len() {
                            assert(result@[j] == own[j]);
                        }
                    }
                }
                result
            },
            Node::Text(_) => Vec::new(),
        }
    }
}

impl Node {
    /// The node with its children replaced by the nodes that `html`
    /// holds; `None` where `html` is malformed. A text node is returned as
    /// it is, whatever `html` holds.
    pub fn inner_html(self, html: &str) -> (r: Option<Self>)
        ensures
            match r {
                Some(n) => if self is Element {
                    document_nodes(html@) matches Some(cs) && n@ == self@.with_only_children(cs)
                } else {
                    n@ == self@
                },
                None => self is Element && document_nodes(html@) is None,
            },
    {
        match self {
            Node::Element { tag, attrs, children } => {
                match Parser::parse_no_root(html.to_owned()) {
                    Some(nodes) => Some(Node::Element { tag, attrs, children: nodes }),
                    None => None,
                }
            },
            Node::Text(t) => Some(Node::Text(t)),
        }
    }

    /// Whether the two nodes are the same tree: the same tags, attributes
    /// and text in the same order throughout.
    pub fn same_as(&self, other: &Self) -> (r: bool)
        ensures
            r == (self@ == other@),
        decreases self,
    {
        match self {
            Node::Element { tag, attrs, children } => match other {
                Node::Element { tag: other_tag, attrs: other_attrs, children: other_children } => {
                    if !str_eq(tag.as_str(), other_tag.as_str()) {
                        return false;
                    }
                    if attrs.len() != other_attrs.len() {
                        assert(pairs(attrs@).len() != pairs(other_attrs@).len());
                        return false;
                    }
                    let mut i: usize = 0;
                    while i < attrs.len()
                        invariant
                            i <= attrs.len(),
                            self is Element,
                            self->attrs == *attrs,
                            other is Element,
                            other->attrs == *other_attrs,
                            attrs.len() == other_attrs.len(),
                            forall|j: int| 0 <= j < i ==> pairs(attrs@)[j] == pairs(other_attrs@)[j],
                        decreases attrs.len() - i,
                    {
                        if !(str_eq(attrs[i].0.as_str(), other_attrs[i].0.as_str()) && str_eq(
                            attrs[i].1.as_str(),
                            other_attrs[i].1.as_str(),
                        )) {
                            assert(pairs(attrs@)[i as int] != pairs(other_attrs@)[i as int]);
                            return false;
                        }
                        i += 1;
                    }
                    assert(pairs(attrs@) =~= pairs(other_attrs@));
                    proof {
                        lemma_trees(children@);
                        lemma_trees(other_children@);
                    }
                    if children.len() != other_children.len() {
                        return false;
                    }
                    let mut k: usize = 0;
                    while k < children.len()
                        invariant
                            k <= children.len(),
                            self is Element,
                            self->children == *children,
                            other is Element,
                            other->children == *other_children,
                            children.len() == other_children.len(),
                            trees(children@).len() == children.len(),
                            trees(other_children@).len() == children.len(),
                            forall|j: int|
                                0 <= j < children.len() ==> #[trigger] trees(children@)[j]
                                    == children@[j]@,
                            forall|j: int|
                                0 <= j < children.len() ==> #[trigger] trees(other_children@)[j]
                                    == other_children@[j]@,
                            forall|j: int| 0 <= j < k ==> children@[j]@ == other_children@[j]@,
                        decreases children.len() - k,
                    {
                        if !children[k].same_as(&other_children[k]) {
                            assert(trees(children@)[k as int] != trees(other_children@)[k as int]);
                            return false;
                        }
                        k += 1;
                    }
                    assert(trees(children@) =~= trees(other_children@));
                    true
                },
                Node::Text(_) => false,
            },
            Node::Text(t) => match other {
                Node::Text(other_t) => str_eq(t.as_str(), other_t.as_str()),
                Node::Element { .. } => false,
            },
        }
    }

    /// Appends the node's markup to `out`.
    fn write_markup(&self, out: &mut String)
        ensures
            final(out)@ == old(out)@ + self@.markup(),
        decreases self,
    {
        match self {
            Node::Element { tag, attrs, children } => {
                let ghost start = out@;
                let ghost ps = pairs(attrs@);
                let ghost kids = trees(children@);
                push_char(out, '<');
                out.append(tag.as_str());
                let mut i: usize = 0;
                while i < attrs.len()
                    invariant
                        i <= attrs.len(),
                        ps == pairs(attrs@),
                        out@ == start + seq!['<'] + tag@ + attrs_markup(ps, i as nat),
                    decreases attrs.len() - i,
                {
                    let ghost before = out@;
                    push_char(out, ' ');
                    out.append(attrs[i].0.as_str());
                    push_char(out, '=');
                    push_char(out, '"');
                    out.append(attrs[i].1.as_str());
                    push_char(out, '"');
                    proof {
                        assert(out@ =~= before + (seq![' '] + ps[i as int].0 + seq!['=', '"'] + ps[i as int].1
                            + seq!['"']));
                        assert(attrs_markup(ps, (i + 1) as nat) =~= attrs_markup(ps, i as nat) + (seq![' ']
                            + ps[i as int].0 + seq!['=', '"'] + ps[i as int].1 + seq!['"']));
                    }
                    i += 1;
                }
                push_char(out, '>');
                let ghost open = out@;
                proof {
                    lemma_trees(children@);
                }
                let mut k: usize = 0;
                while k < children.len()
                    invariant
                        k <= children.len(),
                        self is Element,
                        self->children == *children,
                        kids == trees(children@),
                        kids.len() == children.len(),
                        forall|j: int| 0 <= j < children.len() ==> #[trigger] kids[j] == children@[j]@,
                        out@ == open + markup_upto(kids, k as nat),
                    decreases children.len() - k,
                {
                    let ghost before = out@;
                    children[k].write_markup(out);
                    proof {
                        assert(out@ =~= open + (markup_upto(kids, k as nat) + kids[k as int].markup()));
                    }
                    k += 1;
                }
                push_char(out, '<');
                push_char(out, '/');
                out.append(tag.as_str());
                push_char(out, '>');
                proof {
                    assert(out@ =~= start + (seq!['<'] + tag@ + attrs_markup(ps, ps.len()) + seq!['>']
                        + markup_upto(kids, kids.len()) + seq!['<', '/'] + tag@ + seq!['>']));
                }
            },
            Node::Text(t) => {
                out.append(t.as_str());
            },
        }
    }

    /// The node written as markup.
    pub fn to_string(&self) -> (r: String)
        ensures
            r@ == self@.markup(),
    {
        let mut out = String::new();
        self.write_markup(&mut out);
        proof {
            assert(Seq::<char>::empty() + self@.markup() =~= self@.markup());
        }
        out
    }
}

impl PartialEq for Node {
    fn eq(&self, other: &Self) -> (r: bool) {
        self.same_as(other)
    }
}

impl vstd::std_specs::cmp::PartialEqSpecImpl for Node {
    open spec fn obeys_eq_spec() -> bool {
        true
    }

    open spec fn eq_spec(&self, other: &Self) -> bool {
        self@ == other@
    }
}

/// An element without attributes and children.
pub fn elem(tag: &str) -> (n: Node)
    ensures
        n@ == (Tree::Element { tag: tag@, attrs: Seq::empty(), children: Seq::empty() }),
{
    Node::elem(tag)
}

/// A text node.
pub fn text(t: &str) -> (n: Node)
    ensures
        n@ == Tree::Text(t@),
{
    Node::text(t)
}

} // verus!
