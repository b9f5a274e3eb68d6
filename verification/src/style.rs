//! Style resolution: which declarations of a sheet apply to which element.

use vstd::prelude::*;
use crate::css::{Rule, Selector, Sheet, Specificity, Value, specificity_le, specificity_lt, specificity_at_most};
use crate::dom::{Node, Tree, trees};
use crate::text::str_eq;

verus! {

/// The declarations that apply to one element: at most one value per
/// property name.
#[derive(Debug)]
pub struct PropertyMap {
    entries: Vec<(String, Value)>,
}

/// Whether `i` is the first position of `entries` that holds `name`.
pub open spec fn first_at(entries: Seq<(String, Value)>, name: Seq<char>, i: int) -> bool {
    &&& 0 <= i < entries.len()
    &&& entries[i].0@ == name
    &&& forall|j: int| 0 <= j < i ==> entries[j].0@ != name
}

/// The first position of `entries` that holds `name`, if there is one.
fn position_of(entries: &Vec<(String, Value)>, name: &str) -> (r: Option<usize>)
    ensures
        match r {
            Some(i) => first_at(entries@, name@, i as int),
            None => forall|j: int| 0 <= j < entries@.len() ==> entries@[j].0@ != name@,
        },
{
    let mut i: usize = 0;
    while i < entries.len()
        invariant
            i <= entries.len(),
            forall|j: int| 0 <= j < i ==> entries@[j].0@ != name@,
        decreases entries.len() - i,
    {
        if str_eq(entries[i].0.as_str(), name) {
            return Some(i);
        }
        i += 1;
    }
    None
}

/// Each entry as a pair of name and value model.
spec fn paired(entries: Seq<(String, Value)>) -> Seq<(Seq<char>, crate::css::ValueModel)> {
    Seq::new(entries.len(), |i: int| (entries[i].0@, entries[i].1@))
}

/// The entries whose name no entry before them holds, as pairs of name
/// and value model.
spec fn firsts(entries: Seq<(String, Value)>) -> Seq<(Seq<char>, crate::css::ValueModel)>
    decreases entries.len(),
{
    if entries.len() == 0 {
        Seq::empty()
    } else {
        let before = firsts(entries.drop_last());
        if first_at(entries, entries.last().0@, entries.len() - 1) {
            before.push((entries.last().0@, entries.last().1@))
        } else {
            before
        }
    }
}

/// Where no name has two entries, every entry is the first of its name.
proof fn lemma_firsts_of_distinct(entries: Seq<(String, Value)>)
    requires
        forall|i: int, j: int|
            0 <= i < entries.len() && 0 <= j < entries.len() && (#[trigger] entries[i]).0@ == (
            #[trigger] entries[j]).0@ ==> i == j,
    ensures
        firsts(entries) == paired(entries),
    decreases entries.len(),
{
    if entries.len() > 0 {
        let front = entries.drop_last();
        assert forall|i: int, j: int|
            0 <= i < front.len() && 0 <= j < front.len() && (#[trigger] front[i]).0@ == (
            #[trigger] front[j]).0@ implies i == j by {
            assert(entries[i].0@ == entries[j].0@);
        }
        lemma_firsts_of_distinct(front);
        assert forall|j: int| 0 <= j < entries.len() - 1 implies entries[j].0@ != entries.last().0@ by {
            if entries[j].0@ == entries.last().0@ {
                assert(entries[j].0@ == entries[entries.len() - 1].0@);
            }
        }
        assert(first_at(entries, entries.last().0@, entries.len() - 1));
        assert(firsts(entries) =~= paired(entries));
    } else {
        assert(firsts(entries) =~= paired(entries));
    }
}

/// Whether the first entry of the name of `pair` holds the value of `pair`.
spec fn leads_with(entries: Seq<(String, Value)>, pair: (Seq<char>, crate::css::ValueModel)) -> bool {
    exists|k: int| first_at(entries, pair.0, k) && entries[k].1@ == pair.1
}

/// Whether `pair` is one of `listed`.
spec fn among(listed: Seq<(Seq<char>, crate::css::ValueModel)>, pair: (Seq<char>, crate::css::ValueModel)) -> bool {
    exists|i: int| 0 <= i < listed.len() && listed[i] == pair
}

/// The first entries of the names are one for each name that has an
/// entry, with the value of the first entry of that name.
proof fn lemma_firsts(entries: Seq<(String, Value)>)
    ensures
        forall|i: int, j: int|
            0 <= i < j < firsts(entries).len() ==> (#[trigger] firsts(entries)[i]).0 != (
            #[trigger] firsts(entries)[j]).0,
        forall|i: int|
            0 <= i < firsts(entries).len() ==> leads_with(entries, #[trigger] firsts(entries)[i]),
        forall|name: Seq<char>, k: int| #[trigger]
            first_at(entries, name, k) ==> among(firsts(entries), (name, entries[k].1@)),
    decreases entries.len(),
{
    let all = firsts(entries);
    if entries.len() > 0 {
        let front = entries.drop_last();
        let before = firsts(front);
        let n = entries.len() - 1;
        let last = entries.last();
        lemma_firsts(front);
        assert forall|name: Seq<char>, k: int| 0 <= k < n implies (first_at(front, name, k)
            <==> first_at(entries, name, k)) by {
            if first_at(front, name, k) {
                assert forall|j: int| 0 <= j < k implies entries[j].0@ != name by {
                    assert(front[j].0@ != name);
                }
            }
            if first_at(entries, name, k) {
                assert(front[k] == entries[k]);
                assert forall|j: int| 0 <= j < k implies front[j].0@ != name by {
                    assert(entries[j].0@ != name);
                }
            }
        }
        let fresh = first_at(entries, last.0@, n);
        assert(all == if fresh {
            before.push((last.0@, last.1@))
        } else {
            before
        });
        assert forall|i: int| 0 <= i < all.len() implies leads_with(entries, #[trigger] all[i]) by {
            if i < before.len() {
                assert(all[i] == before[i]);
                assert(leads_with(front, before[i]));
                let k = choose|k: int| first_at(front, before[i].0, k) && front[k].1@ == before[i].1;
                assert(0 <= k < n);
                assert(front[k] == entries[k]);
                assert(first_at(entries, all[i].0, k) && entries[k].1@ == all[i].1);
            } else {
                assert(first_at(entries, all[i].0, n) && entries[n].1@ == all[i].1);
            }
        }
        assert forall|i: int, j: int| 0 <= i < j < all.len() implies (#[trigger] all[i]).0 != (
        #[trigger] all[j]).0 by {
            if j < before.len() {
                assert(all[i] == before[i] && all[j] == before[j]);
            } else {
                assert(all[i] == before[i]);
                assert(leads_with(front, before[i]));
                let k = choose|k: int| first_at(front, before[i].0, k) && front[k].1@ == before[i].1;
                assert(0 <= k < n);
                assert(front[k] == entries[k]);
                assert(entries[k].0@ == before[i].0);
            }
        }
        assert forall|name: Seq<char>, k: int| #[trigger] first_at(entries, name, k) implies among(
            all,
            (name, entries[k].1@),
        ) by {
            if k < n {
                assert(first_at(front, name, k));
                assert(front[k] == entries[k]);
                assert(among(before, (name, front[k].1@)));
                let i = choose|i: int| 0 <= i < before.len() && before[i] == (name, front[k].1@);
                assert(all[i] == (name, entries[k].1@));
            } else {
                assert(all[before.len() as int] == (name, entries[k].1@));
            }
        }
    }
}

impl PropertyMap {
    /// No name has two entries.
    #[verifier::type_invariant]
    pub closed spec fn distinct(self) -> bool {
        forall|i: int, j: int|
            0 <= i < self.entries@.len() && 0 <= j < self.entries@.len() && (
            #[trigger] self.entries@[i]).0@ == (#[trigger] self.entries@[j]).0@ ==> i == j
    }

    /// The map from property names to values.
    pub closed spec fn view(self) -> Map<Seq<char>, Value> {
        Map::new(
            |name: Seq<char>| exists|i: int| first_at(self.entries@, name, i),
            |name: Seq<char>| self.entries@[choose|i: int| first_at(self.entries@, name, i)].1,
        )
    }

    /// The entries as pairs of name and value, in the order in which the
    /// names were first given a value.
    pub closed spec fn listing(self) -> Seq<(Seq<char>, crate::css::ValueModel)> {
        firsts(self.entries@)
    }

    /// The listing holds what the map holds: no name is listed twice, each
    /// listed name has the listed value in the map, and each name that has
    /// a value in the map is listed with it.
    pub proof fn lemma_listing(self)
        ensures
            forall|i: int, j: int|
                0 <= i < j < self.listing().len() ==> (#[trigger] self.listing()[i]).0 != (
                #[trigger] self.listing()[j]).0,
            forall|i: int|
                0 <= i < self.listing().len() ==> self@.contains_key((#[trigger] self.listing()[i]).0)
                    && self@[self.listing()[i].0]@ == self.listing()[i].1,
            forall|name: Seq<char>| #[trigger]
                self@.contains_key(name) ==> exists|i: int|
                    0 <= i < self.listing().len() && #[trigger] self.listing()[i] == (
                        name,
                        self@[name]@,
                    ),
    {
        let entries = self.entries@;
        let listed = self.listing();
        lemma_firsts(entries);
        assert forall|i: int| 0 <= i < listed.len() implies self@.contains_key(
            (#[trigger] listed[i]).0,
        ) && self@[listed[i].0]@ == listed[i].1 by {
            let name = listed[i].0;
            assert(leads_with(entries, listed[i]));
            let k = choose|k: int| first_at(entries, name, k) && entries[k].1@ == listed[i].1;
            let c = choose|c: int| first_at(entries, name, c);
            assert(first_at(entries, name, c));
            assert(c == k);
        }
        assert forall|name: Seq<char>| #[trigger] self@.contains_key(name) implies exists|i: int|
            0 <= i < listed.len() && #[trigger] listed[i] == (name, self@[name]@) by {
            let c = choose|c: int| first_at(entries, name, c);
            assert(first_at(entries, name, c));
            assert(among(listed, (name, entries[c].1@)));
            let i = choose|i: int| 0 <= i < listed.len() && listed[i] == (name, entries[c].1@);
            assert(listed[i] == (name, self@[name]@));
        }
    }

    /// The number of properties that have a value.
    pub fn len(&self) -> (n: usize)
        ensures
            n == self.listing().len(),
            self@.dom().finite(),
            n == self@.dom().len(),
    {
        proof {
            use_type_invariant(self);
            lemma_firsts_of_distinct(self.entries@);
            let names = Seq::new(self.entries@.len(), |i: int| self.entries@[i].0@);
            assert forall|k: Seq<char>| names.to_set().contains(k) <==> self@.dom().contains(k) by {
                if names.to_set().contains(k) {
                    let i = choose|i: int| 0 <= i < names.len() && names[i] == k;
                    assert forall|j: int| 0 <= j < i implies self.entries@[j].0@ != k by {
                        assert(self.entries@[j].0@ == names[j]);
                        assert(self.entries@[i].0@ == names[i]);
                    }
                    assert(first_at(self.entries@, k, i));
                }
                if self@.dom().contains(k) {
                    let i = choose|i: int| first_at(self.entries@, k, i);
                    assert(names[i] == k);
                }
            }
            assert(names.to_set() =~= self@.dom());
            assert(names.no_duplicates()) by {
                assert forall|i: int, j: int|
                    0 <= i < names.len() && 0 <= j < names.len() && i != j implies names[i]
                    != names[j] by {
                    assert(self.entries@[i].0@ == names[i]);
                    assert(self.entries@[j].0@ == names[j]);
                }
            }
            names.unique_seq_to_set();
        }
        self.entries.len()
    }

    /// The name of entry `i`.
    pub fn name_at(&self, i: usize) -> (name: &str)
        requires
            i < self.listing().len(),
        ensures
            name@ == self.listing()[i as int].0,
    {
        proof {
            use_type_invariant(self);
            lemma_firsts_of_distinct(self.entries@);
        }
        self.entries[i].0.as_str()
    }

    /// The value of entry `i`.
    pub fn value_at(&self, i: usize) -> (value: &Value)
        requires
            i < self.listing().len(),
        ensures
            value@ == self.listing()[i as int].1,
    {
        proof {
            use_type_invariant(self);
            lemma_firsts_of_distinct(self.entries@);
        }
        &self.entries[i].1
    }

    /// The map without entries: no property has a value, and the listing
    /// of entries is empty.
    pub fn new() -> (m: Self)
        ensures
            m@ == Map::<Seq<char>, Value>::empty(),
            m.listing() == Seq::<(Seq<char>, crate::css::ValueModel)>::empty(),
    {
        let m = PropertyMap { entries: Vec::new() };
        assert(m@ =~= Map::<Seq<char>, Value>::empty());
        assert(m.listing() =~= Seq::<(Seq<char>, crate::css::ValueModel)>::empty());
        m
    }

    /// Position of the entry for `name`, if there is one.
    fn position(&self, name: &str) -> (r: Option<usize>)
        ensures
            match r {
                Some(i) => first_at(self.entries@, name@, i as int),
                None => forall|j: int| 0 <= j < self.entries@.len() ==> self.entries@[j].0@ != name@,
            },
    {
        position_of(&self.entries, name)
    }

    /// The value of property `name`, if it has one.
    pub fn get(&self, name: &str) -> (r: Option<&Value>)
        ensures
            match r {
                Some(v) => self@.contains_key(name@) && *v == self@[name@],
                None => !self@.contains_key(name@),
            },
    {
        match self.position(name) {
            Some(i) => Some(&self.entries[i].1),
            None => None,
        }
    }

    /// Whether property `name` has a value.
    pub fn contains_key(&self, name: &str) -> (r: bool)
        ensures
            r == self@.contains_key(name@),
    {
        self.position(name).is_some()
    }

    /// Whether no property has a value.
    pub fn is_empty(&self) -> (r: bool)
        ensures
            r == (self@ == Map::<Seq<char>, Value>::empty()),
    {
        let r = self.entries.len() == 0;
        proof {
            if r {
                assert(self@ =~= Map::<Seq<char>, Value>::empty());
            } else {
                assert(first_at(self.entries@, self.entries@[0].0@, 0));
                assert(self@.contains_key(self.entries@[0].0@));
            }
        }
        r
    }

    /// Gives property `name` the value `value`, replacing the one it had.
    /// A name that is listed keeps its place in the listing; a new name is
    /// listed last.
    pub fn insert(&mut self, name: String, value: Value)
        ensures
            final(self)@ == old(self)@.insert(name@, value),
            forall|i: int|
                0 <= i < old(self).listing().len() && (#[trigger] old(self).listing()[i]).0 == name@
                    ==> final(self).listing() == old(self).listing().update(i, (name@, value@)),
            (forall|i: int|
                0 <= i < old(self).listing().len() ==> (#[trigger] old(self).listing()[i]).0
                    != name@) ==> final(self).listing() == old(self).listing().push(
                (name@, value@),
            ),
    {
        let mut taken = PropertyMap::new();
        core::mem::swap(self, &mut taken);
        proof {
            use_type_invariant(&taken);
            lemma_firsts_of_distinct(taken.entries@);
        }
        let mut entries = taken.entries;
        let ghost before = entries@;
        let ghost listed = paired(before);
        match position_of(&entries, name.as_str()) {
            Some(i) => {
                entries[i].1 = value;
                proof {
                    let after = entries@;
                    assert(after.len() == before.len());
                    assert forall|m: int| 0 <= m < after.len() implies #[trigger] after[m].0@
                        == before[m].0@ by {}
                    assert forall|k: Seq<char>, j: int|
                        first_at(before, k, j) <==> first_at(after, k, j) by {
                        if first_at(before, k, j) {
                            assert forall|m: int| 0 <= m < j implies after[m].0@ != k by {
                                assert(before[m].0@ != k);
                            }
                        }
                        if first_at(after, k, j) {
                            assert forall|m: int| 0 <= m < j implies before[m].0@ != k by {
                                assert(after[m].0@ != k);
                            }
                        }
                    }
                    assert forall|i: int, j: int|
                        0 <= i < after.len() && 0 <= j < after.len() && (#[trigger] after[i]).0@ == (
                        #[trigger] after[j]).0@ implies i == j by {
                        assert(before[i].0@ == before[j].0@);
                    }
                    lemma_firsts_of_distinct(after);
                    assert(paired(after) =~= listed.update(i as int, (name@, value@)));
                    assert(listed[i as int].0 == name@);
                    assert forall|j: int| 0 <= j < listed.len() && (#[trigger] listed[j]).0
                        == name@ implies j == i by {
                        assert(before[j].0@ == before[i as int].0@);
                    }
                }
            },
            None => {
                entries.push((name, value));
                proof {
                    let after = entries@;
                    assert(after == before.push((name, value)));
                    assert(first_at(after, name@, before.len() as int));
                    assert forall|k: Seq<char>, j: int| k != name@ implies (first_at(before, k, j)
                        <==> first_at(after, k, j)) by {
                        if first_at(before, k, j) {
                            assert forall|m: int| 0 <= m < j implies after[m].0@ != k by {
                                assert(before[m].0@ != k);
                            }
                        }
                        if first_at(after, k, j) {
                            assert forall|m: int| 0 <= m < j implies before[m].0@ != k by {
                                assert(after[m].0@ != k);
                            }
                        }
                    }
                    assert forall|i: int, j: int|
                        0 <= i < after.len() && 0 <= j < after.len() && (#[trigger] after[i]).0@ == (
                        #[trigger] after[j]).0@ implies i == j by {
                        if i < before.len() && j < before.len() {
                            assert(before[i].0@ == before[j].0@);
                        } else if i < before.len() {
                            assert(before[i].0@ != name@);
                        } else if j < before.len() {
                            assert(before[j].0@ != name@);
                        }
                    }
                    lemma_firsts_of_distinct(after);
                    assert(paired(after) =~= listed.push((name@, value@)));
                    assert forall|j: int| 0 <= j < listed.len() implies (#[trigger] listed[j]).0
                        != name@ by {
                        assert(before[j].0@ != name@);
                    }
                }
            },
        }
        let ghost after = entries@;
        *self = PropertyMap { entries };
        proof {
            assert(self.entries@ == after);
            assert(self@ =~= old(self)@.insert(name@, value));
        }
    }
}

/// How an element takes part in layout.
#[derive(Clone, Copy, Debug, PartialEq, Eq, Structural)]
pub enum Display {
    Inline,
    InlineBlock,
    Block,
    /// `display: none`: the element and its subtree generate no boxes.
    Omitted,
}

/// The display kind that a property map asks for: `block`, `inline-block`
/// and `none` by their keywords, `Inline` for anything else.
pub open spec fn display_of(props: Map<Seq<char>, Value>) -> Display {
    if !props.contains_key("display"@) {
        Display::Inline
    } else if props["display"@].is_keyword("block"@) {
        Display::Block
    } else if props["display"@].is_keyword("inline-block"@) {
        Display::InlineBlock
    } else if props["display"@].is_keyword("none"@) {
        Display::Omitted
    } else {
        Display::Inline
    }
}

/// The value to use for `name`: its own, else that of `fallback_name`, else
/// `default`.
pub open spec fn lookup_of(
    props: Map<Seq<char>, Value>,
    name: Seq<char>,
    fallback_name: Seq<char>,
    default: Value,
) -> Value {
    if props.contains_key(name) {
        props[name]
    } else if props.contains_key(fallback_name) {
        props[fallback_name]
    } else {
        default
    }
}

/// A document node with the declarations that apply to it.
#[derive(Debug)]
pub struct StyledNode<'a> {
    pub node: &'a Node,
    pub specified_values: PropertyMap,
    pub children: Vec<StyledNode<'a>>,
}

impl<'a> StyledNode<'a> {
    /// The node's value for property `name`, if it has one.
    pub fn value(&self, name: &str) -> (r: Option<Value>)
        ensures
            match r {
                Some(v) => self.specified_values@.contains_key(name@) && v
                    == self.specified_values@[name@],
                None => !self.specified_values@.contains_key(name@),
            },
    {
        match self.specified_values.get(name) {
            Some(v) => Some(v.duplicate()),
            None => None,
        }
    }

    /// The node's value for `name`, else for `fallback_name`, else `default`.
    pub fn lookup(&self, name: &str, fallback_name: &str, default: &Value) -> (r: Value)
        ensures
            r == lookup_of(self.specified_values@, name@, fallback_name@, *default),
    {
        match self.value(name) {
            Some(v) => v,
            None => match self.value(fallback_name) {
                Some(v) => v,
                None => default.duplicate(),
            },
        }
    }

    /// The node's display kind.
    pub fn display(&self) -> (d: Display)
        ensures
            d == display_of(self.specified_values@),
    {
        match self.specified_values.get("display") {
            Some(Value::Keyword(s)) => {
                if str_eq(s.as_str(), "block") {
                    Display::Block
                } else if str_eq(s.as_str(), "inline-block") {
                    Display::InlineBlock
                } else if str_eq(s.as_str(), "none") {
                    Display::Omitted
                } else {
                    Display::Inline
                }
            },
            _ => Display::Inline,
        }
    }
}

/// Whether `sel` matches `node`. Only an element can match; a tag, an id
/// and each class that the selector names must be the element's: the tag
/// is the element's tag, the id is the value of its `id` attribute, which
/// it must have, and each class is among its classes. Attribute predicates
/// are not looked at.
pub open spec fn selector_matches(node: Tree, sel: Selector) -> bool {
    &&& node is Element
    &&& sel.tag matches Some(t) ==> node->tag == t@
    &&& sel.id matches Some(i) ==> node.id() == Some(i@)
    &&& forall|k: int| 0 <= k < sel.class.len() ==> node.classes().contains(#[trigger] sel.class[k]@)
}

/// Whether `selector` matches `node`.
pub fn matches(node: &Node, selector: &Selector) -> (r: bool)
    ensures
        r == selector_matches(node@, *selector),
{
    match node {
        Node::Element { tag, .. } => {
            match &selector.tag {
                Some(name) => {
                    if !str_eq(tag.as_str(), name.as_str()) {
                        return false;
                    }
                },
                None => {},
            }
            match &selector.id {
                Some(id) => {
                    match node.get_id() {
                        Some(own) => {
                            if !str_eq(own, id.as_str()) {
                                return false;
                            }
                        },
                        None => {
                            return false;
                        },
                    }
                },
                None => {},
            }
            let node_classes = node.get_classes();
            let mut k: usize = 0;
            while k < selector.class.len()
                invariant
                    k <= selector.class.len(),
                    node_classes@ == node@.classes(),
                    forall|j: int|
                        0 <= j < k ==> node@.classes().contains(#[trigger] selector.class[j]@),
                decreases selector.class.len() - k,
            {
                if !node_classes.contains(selector.class[k].as_str()) {
                    return false;
                }
                k += 1;
            }
            true
        },
        Node::Text(_) => false,
    }
}

/// The highest specificity among those of `selectors[..n]` that match
/// `node`, if any of them does.
pub open spec fn rank_upto(node: Tree, selectors: Seq<Selector>, n: nat) -> Option<Specificity>
    decreases n,
{
    if n == 0 || n > selectors.len() {
        None
    } else {
        let rest = rank_upto(node, selectors, (n - 1) as nat);
        let s = selectors[n - 1];
        if !selector_matches(node, s) {
            rest
        } else if rest is Some && specificity_le(s.specificity(), rest->0) {
            rest
        } else {
            Some(s.specificity())
        }
    }
}

/// The specificity with which `rule` applies to `node`: the highest among
/// its selectors that match; `None` where none matches.
pub open spec fn rule_rank(node: Tree, rule: Rule) -> Option<Specificity> {
    rank_upto(node, rule.selectors@, rule.selectors@.len())
}

/// The rank of a rule is the specificity of one of its matching
/// selectors, and no matching selector has a higher one; there is none
/// exactly where no selector matches.
pub proof fn lemma_rank_is_highest(node: Tree, selectors: Seq<Selector>, n: nat)
    requires
        n <= selectors.len(),
    ensures
        match rank_upto(node, selectors, n) {
            Some(b) => {
                &&& exists|k: int|
                    0 <= k < n && selector_matches(node, #[trigger] selectors[k])
                        && selectors[k].specificity() == b
                &&& forall|k: int|
                    0 <= k < n && selector_matches(node, #[trigger] selectors[k]) ==> specificity_le(
                        selectors[k].specificity(),
                        b,
                    )
            },
            None => forall|k: int| 0 <= k < n ==> !selector_matches(node, #[trigger] selectors[k]),
        },
    decreases n,
{
    if n > 0 {
        lemma_rank_is_highest(node, selectors, (n - 1) as nat);
        let rest = rank_upto(node, selectors, (n - 1) as nat);
        let s = selectors[n - 1];
        if selector_matches(node, s) {
            if rest is Some && specificity_le(s.specificity(), rest->0) {
                let k = choose|k: int|
                    0 <= k < n - 1 && selector_matches(node, #[trigger] selectors[k])
                        && selectors[k].specificity() == rest->0;
                assert(0 <= k < n && selector_matches(node, selectors[k]) && selectors[k].specificity()
                    == rest->0);
            } else {
                assert(selector_matches(node, selectors[n - 1]));
            }
        } else if rest is Some {
            let k = choose|k: int|
                0 <= k < n - 1 && selector_matches(node, #[trigger] selectors[k])
                    && selectors[k].specificity() == rest->0;
            assert(0 <= k < n && selector_matches(node, selectors[k]) && selectors[k].specificity()
                == rest->0);
        }
    }
}

/// Whether `rule` applies to `node`, and with which specificity.
pub fn match_rule<'a>(node: &Node, rule: &'a Rule) -> (r: Option<(Specificity, &'a Rule)>)
    ensures
        match r {
            Some((s, matched)) => rule_rank(node@, *rule) == Some(s) && matched == rule,
            None => rule_rank(node@, *rule) is None,
        },
{
    let mut best: Option<Specificity> = None;
    let mut i: usize = 0;
    while i < rule.selectors.len()
        invariant
            i <= rule.selectors.len(),
            best == rank_upto(node@, rule.selectors@, i as nat),
        decreases rule.selectors.len() - i,
    {
        let selector = &rule.selectors[i];
        if matches(node, selector) {
            let s = selector.get_specificity();
            let keep = match best {
                Some(b) => specificity_at_most(s, b),
                None => false,
            };
            if !keep {
                best = Some(s);
            }
        }
        i += 1;
    }
    match best {
        Some(s) => Some((s, rule)),
        None => None,
    }
}

/// The rules among the first `n` of `sheet` that apply to `node`, each
/// with its rank, in sheet order.
pub open spec fn matched_upto<'a>(node: Tree, sheet: &'a Sheet, n: nat) -> Seq<(Specificity, &'a Rule)>
    decreases n,
{
    if n == 0 || n > sheet.0.len() {
        Seq::empty()
    } else {
        let before = matched_upto(node, sheet, (n - 1) as nat);
        match rule_rank(node, sheet.0[n - 1]) {
            Some(s) => before.push((s, &sheet.0[n - 1])),
            None => before,
        }
    }
}

/// The rules of `sheet` that apply to `node`, each with its rank, in
/// sheet order.
pub fn matching_rules<'a>(node: &Node, sheet: &'a Sheet) -> (r: Vec<(Specificity, &'a Rule)>)
    ensures
        r@ == matched_upto(node@, sheet, sheet.0@.len()),
{
    let mut matched: Vec<(Specificity, &'a Rule)> = Vec::new();
    let mut i: usize = 0;
    while i < sheet.0.len()
        invariant
            i <= sheet.0.len(),
            matched@ == matched_upto(node@, sheet, i as nat),
        decreases sheet.0.len() - i,
    {
        match match_rule(node, &sheet.0[i]) {
            Some(m) => {
                matched.push(m);
            },
            None => {},
        }
        i += 1;
    }
    matched
}

/// Whether declaration `d` of rule `r` is a declaration of property
/// `name` in a rule that applies to `node`.
pub open spec fn applies(node: Tree, sheet: Sheet, name: Seq<char>, r: int, d: int) -> bool {
    &&& 0 <= r < sheet.0.len()
    &&& rule_rank(node, sheet.0[r]) is Some
    &&& 0 <= d < sheet.0[r].declarations.len()
    &&& sheet.0[r].declarations[d].name@ == name
}

/// Whether declaration `d` of rule `r` gives way to declaration `e` of
/// rule `q`, or is that declaration: the rule of higher rank prevails,
/// between rules of one rank the later one, within a rule the later
/// declaration.
pub open spec fn gives_way(node: Tree, sheet: Sheet, r: int, d: int, q: int, e: int) -> bool {
    let a = rule_rank(node, sheet.0[r])->0;
    let b = rule_rank(node, sheet.0[q])->0;
    specificity_lt(a, b) || (a == b && (r < q || (r == q && d <= e)))
}

/// Whether declaration `d` of rule `r` is the one that decides property
/// `name` for `node`: every declaration of `name` that applies gives way
/// to it.
pub open spec fn wins(node: Tree, sheet: Sheet, name: Seq<char>, r: int, d: int) -> bool {
    &&& applies(node, sheet, name, r, d)
    &&& forall|q: int, e: int| #[trigger]
        applies(node, sheet, name, q, e) ==> gives_way(node, sheet, q, e, r, d)
}

/// The declarations that `sheet` gives `node`: each property that a
/// matching rule declares, with the value of the declaration that wins.
pub open spec fn cascade(node: Tree, sheet: Sheet) -> Map<Seq<char>, Value> {
    Map::new(
        |name: Seq<char>| exists|r: int, d: int| applies(node, sheet, name, r, d),
        |name: Seq<char>|
            {
                let p = choose|p: (int, int)| wins(node, sheet, name, p.0, p.1);
                sheet.0[p.0].declarations[p.1].value
            },
    )
}

/// Whether declaration `d` of rule `r` comes before declaration `upto.1`
/// of rule `upto.0` in the sheet.
pub open spec fn seen(r: int, d: int, upto: (int, int)) -> bool {
    r < upto.0 || (r == upto.0 && d < upto.1)
}

/// Whether an entry holds the value of the declaration `at`, which wins
/// among the declarations of `name` before `upto`.
pub open spec fn leads(
    node: Tree,
    sheet: Sheet,
    name: Seq<char>,
    value: Value,
    rank: Specificity,
    at: (int, int),
    upto: (int, int),
) -> bool {
    &&& seen(at.0, at.1, upto)
    &&& applies(node, sheet, name, at.0, at.1)
    &&& value == sheet.0[at.0].declarations[at.1].value
    &&& rule_rank(node, sheet.0[at.0]) == Some(rank)
    &&& forall|q: int, e: int| #[trigger]
        applies(node, sheet, name, q, e) && seen(q, e, upto) ==> gives_way(
            node,
            sheet,
            q,
            e,
            at.0,
            at.1,
        )
}

/// Whether `entries` are the cascade of the declarations before `upto`:
/// one entry for each property declared so far, with the value, the rank
/// and the place of the declaration that wins so far.
pub open spec fn resolved(
    node: Tree,
    sheet: Sheet,
    entries: Seq<(String, Value)>,
    ranks: Seq<Specificity>,
    at: Seq<(int, int)>,
    upto: (int, int),
) -> bool {
    &&& entries.len() == ranks.len()
    &&& entries.len() == at.len()
    &&& forall|i: int|
        0 <= i < entries.len() ==> leads(
            node,
            sheet,
            (#[trigger] entries[i]).0@,
            entries[i].1,
            ranks[i],
            at[i],
            upto,
        )
    &&& forall|i: int, j: int|
        0 <= i < entries.len() && 0 <= j < entries.len() && (#[trigger] entries[i]).0@ == (
        #[trigger] entries[j]).0@ ==> i == j
    &&& forall|name: Seq<char>, q: int, e: int| #[trigger]
        applies(node, sheet, name, q, e) && seen(q, e, upto) ==> exists|i: int|
            0 <= i < entries.len() && (#[trigger] entries[i]).0@ == name
}

/// Going on to the next rule keeps the entries resolved, where the rule
/// does not apply or all its declarations have been taken.
proof fn lemma_cascade_next_rule(
    node: Tree,
    sheet: Sheet,
    entries: Seq<(String, Value)>,
    ranks: Seq<Specificity>,
    at: Seq<(int, int)>,
    r: int,
    d: int,
)
    requires
        resolved(node, sheet, entries, ranks, at, (r, d)),
        0 <= r < sheet.0.len(),
        0 <= d,
        rule_rank(node, sheet.0[r]) is None || d >= sheet.0[r].declarations.len(),
    ensures
        resolved(node, sheet, entries, ranks, at, (r + 1, 0)),
{
    assert forall|i: int| 0 <= i < entries.len() implies leads(
        node,
        sheet,
        (#[trigger] entries[i]).0@,
        entries[i].1,
        ranks[i],
        at[i],
        (r + 1, 0),
    ) by {
        let name = entries[i].0@;
        assert(leads(node, sheet, name, entries[i].1, ranks[i], at[i], (r, d)));
        assert forall|q: int, e: int| #[trigger]
            applies(node, sheet, name, q, e) && seen(q, e, (r + 1, 0)) implies gives_way(
            node,
            sheet,
            q,
            e,
            at[i].0,
            at[i].1,
        ) by {
            assert(seen(q, e, (r, d)));
        }
    }
    assert forall|name: Seq<char>, q: int, e: int| #[trigger]
        applies(node, sheet, name, q, e) && seen(q, e, (r + 1, 0)) implies exists|i: int|
        0 <= i < entries.len() && (#[trigger] entries[i]).0@ == name by {
        assert(seen(q, e, (r, d)));
    }
}

/// A declaration from a rule of lower rank than the one that gave the
/// property its value changes nothing.
proof fn lemma_cascade_keep(
    node: Tree,
    sheet: Sheet,
    entries: Seq<(String, Value)>,
    ranks: Seq<Specificity>,
    at: Seq<(int, int)>,
    r: int,
    d: int,
    i: int,
)
    requires
        resolved(node, sheet, entries, ranks, at, (r, d)),
        0 <= r < sheet.0.len(),
        rule_rank(node, sheet.0[r]) is Some,
        0 <= d < sheet.0[r].declarations.len(),
        0 <= i < entries.len(),
        entries[i].0@ == sheet.0[r].declarations[d].name@,
        !specificity_le(ranks[i], rule_rank(node, sheet.0[r])->0),
    ensures
        resolved(node, sheet, entries, ranks, at, (r, d + 1)),
{
    let decl_name = sheet.0[r].declarations[d].name@;
    assert forall|j: int| 0 <= j < entries.len() implies leads(
        node,
        sheet,
        (#[trigger] entries[j]).0@,
        entries[j].1,
        ranks[j],
        at[j],
        (r, d + 1),
    ) by {
        let name = entries[j].0@;
        assert(leads(node, sheet, name, entries[j].1, ranks[j], at[j], (r, d)));
        assert forall|q: int, e: int| #[trigger]
            applies(node, sheet, name, q, e) && seen(q, e, (r, d + 1)) implies gives_way(
            node,
            sheet,
            q,
            e,
            at[j].0,
            at[j].1,
        ) by {
            if q == r && e == d {
                assert(name == decl_name);
                assert(j == i);
            } else {
                assert(seen(q, e, (r, d)));
            }
        }
    }
    assert forall|name: Seq<char>, q: int, e: int| #[trigger]
        applies(node, sheet, name, q, e) && seen(q, e, (r, d + 1)) implies exists|j: int|
        0 <= j < entries.len() && (#[trigger] entries[j]).0@ == name by {
        if q == r && e == d {
            assert(entries[i].0@ == name);
        } else {
            assert(seen(q, e, (r, d)));
        }
    }
}

/// A declaration from a rule that does not rank lower than the one that
/// gave the property its value takes its place.
proof fn lemma_cascade_replace(
    node: Tree,
    sheet: Sheet,
    entries: Seq<(String, Value)>,
    ranks: Seq<Specificity>,
    at: Seq<(int, int)>,
    r: int,
    d: int,
    i: int,
    after: Seq<(String, Value)>,
)
    requires
        resolved(node, sheet, entries, ranks, at, (r, d)),
        0 <= r < sheet.0.len(),
        rule_rank(node, sheet.0[r]) is Some,
        0 <= d < sheet.0[r].declarations.len(),
        0 <= i < entries.len(),
        entries[i].0@ == sheet.0[r].declarations[d].name@,
        specificity_le(ranks[i], rule_rank(node, sheet.0[r])->0),
        after == entries.update(i, (entries[i].0, sheet.0[r].declarations[d].value)),
    ensures
        resolved(
            node,
            sheet,
            after,
            ranks.update(i, rule_rank(node, sheet.0[r])->0),
            at.update(i, (r, d)),
            (r, d + 1),
        ),
{
    let decl_name = sheet.0[r].declarations[d].name@;
    let rank = rule_rank(node, sheet.0[r])->0;
    let ranks2 = ranks.update(i, rank);
    let at2 = at.update(i, (r, d));
    assert forall|j: int| 0 <= j < after.len() implies (#[trigger] after[j]).0@ == entries[j].0@ by {}
    assert forall|j: int| 0 <= j < after.len() implies leads(
        node,
        sheet,
        (#[trigger] after[j]).0@,
        after[j].1,
        ranks2[j],
        at2[j],
        (r, d + 1),
    ) by {
        let name = entries[j].0@;
        assert(leads(node, sheet, name, entries[j].1, ranks[j], at[j], (r, d)));
        assert forall|q: int, e: int| #[trigger]
            applies(node, sheet, name, q, e) && seen(q, e, (r, d + 1)) implies gives_way(
            node,
            sheet,
            q,
            e,
            at2[j].0,
            at2[j].1,
        ) by {
            if q == r && e == d {
                assert(name == decl_name);
                assert(j == i);
            } else {
                assert(seen(q, e, (r, d)));
                assert(gives_way(node, sheet, q, e, at[j].0, at[j].1));
            }
        }
    }
    assert forall|j: int, k: int|
        0 <= j < after.len() && 0 <= k < after.len() && (#[trigger] after[j]).0@ == (
        #[trigger] after[k]).0@ implies j == k by {
        assert(entries[j].0@ == entries[k].0@);
    }
    assert forall|name: Seq<char>, q: int, e: int| #[trigger]
        applies(node, sheet, name, q, e) && seen(q, e, (r, d + 1)) implies exists|j: int|
        0 <= j < after.len() && (#[trigger] after[j]).0@ == name by {
        if q == r && e == d {
            assert(after[i].0@ == name);
        } else {
            assert(seen(q, e, (r, d)));
            let j = choose|j: int| 0 <= j < entries.len() && (#[trigger] entries[j]).0@ == name;
            assert(after[j].0@ == name);
        }
    }
}

/// A declaration of a property that has no value yet gives it one.
proof fn lemma_cascade_push(
    node: Tree,
    sheet: Sheet,
    entries: Seq<(String, Value)>,
    ranks: Seq<Specificity>,
    at: Seq<(int, int)>,
    r: int,
    d: int,
    name: String,
)
    requires
        resolved(node, sheet, entries, ranks, at, (r, d)),
        0 <= r < sheet.0.len(),
        rule_rank(node, sheet.0[r]) is Some,
        0 <= d < sheet.0[r].declarations.len(),
        name@ == sheet.0[r].declarations[d].name@,
        forall|j: int| 0 <= j < entries.len() ==> (#[trigger] entries[j]).0@ != name@,
    ensures
        resolved(
            node,
            sheet,
            entries.push((name, sheet.0[r].declarations[d].value)),
            ranks.push(rule_rank(node, sheet.0[r])->0),
            at.push((r, d)),
            (r, d + 1),
        ),
{
    let after = entries.push((name, sheet.0[r].declarations[d].value));
    let ranks2 = ranks.push(rule_rank(node, sheet.0[r])->0);
    let at2 = at.push((r, d));
    let n = entries.len() as int;
    assert forall|j: int| 0 <= j < after.len() implies leads(
        node,
        sheet,
        (#[trigger] after[j]).0@,
        after[j].1,
        ranks2[j],
        at2[j],
        (r, d + 1),
    ) by {
        let own = after[j].0@;
        if j < n {
            assert(after[j] == entries[j]);
            assert(leads(node, sheet, own, entries[j].1, ranks[j], at[j], (r, d)));
            assert forall|q: int, e: int| #[trigger]
                applies(node, sheet, own, q, e) && seen(q, e, (r, d + 1)) implies gives_way(
                node,
                sheet,
                q,
                e,
                at2[j].0,
                at2[j].1,
            ) by {
                if q == r && e == d {
                    assert(entries[j].0@ != name@);
                } else {
                    assert(seen(q, e, (r, d)));
                }
            }
        } else {
            assert forall|q: int, e: int| #[trigger]
                applies(node, sheet, own, q, e) && seen(q, e, (r, d + 1)) implies gives_way(
                node,
                sheet,
                q,
                e,
                r,
                d,
            ) by {
                if !(q == r && e == d) {
                    assert(seen(q, e, (r, d)));
                    let k = choose|k: int| 0 <= k < entries.len() && (#[trigger] entries[k]).0@ == own;
                    assert(entries[k].0@ != name@);
                }
            }
        }
    }
    assert forall|j: int, k: int|
        0 <= j < after.len() && 0 <= k < after.len() && (#[trigger] after[j]).0@ == (
        #[trigger] after[k]).0@ implies j == k by {
        if j < n && k < n {
            assert(entries[j].0@ == entries[k].0@);
        } else if j < n {
            assert(entries[j].0@ != name@);
        } else if k < n {
            assert(entries[k].0@ != name@);
        }
    }
    assert forall|own: Seq<char>, q: int, e: int| #[trigger]
        applies(node, sheet, own, q, e) && seen(q, e, (r, d + 1)) implies exists|j: int|
        0 <= j < after.len() && (#[trigger] after[j]).0@ == own by {
        if q == r && e == d {
            assert(after[n].0@ == own);
        } else {
            assert(seen(q, e, (r, d)));
            let j = choose|j: int| 0 <= j < entries.len() && (#[trigger] entries[j]).0@ == own;
            assert(after[j].0@ == own);
        }
    }
}

/// Entries that are resolved up to the end of the sheet are the cascade.
proof fn lemma_cascade_done(
    node: Tree,
    sheet: Sheet,
    m: PropertyMap,
    ranks: Seq<Specificity>,
    at: Seq<(int, int)>,
)
    requires
        resolved(node, sheet, m.entries@, ranks, at, (sheet.0.len() as int, 0)),
    ensures
        m@ == cascade(node, sheet),
{
    let entries = m.entries@;
    let upto = (sheet.0.len() as int, 0int);
    let c = cascade(node, sheet);
    assert forall|name: Seq<char>| #[trigger] m@.contains_key(name) implies c.contains_key(name) by {
        let i = choose|i: int| first_at(entries, name, i);
        assert(leads(node, sheet, entries[i].0@, entries[i].1, ranks[i], at[i], upto));
        assert(applies(node, sheet, name, at[i].0, at[i].1));
    }
    assert forall|name: Seq<char>| #[trigger] c.contains_key(name) implies m@.contains_key(name)
        && m@[name] == c[name] by {
        let (q, e) = choose|q: int, e: int| applies(node, sheet, name, q, e);
        assert(applies(node, sheet, name, q, e) && seen(q, e, upto));
        let i = choose|i: int| 0 <= i < entries.len() && (#[trigger] entries[i]).0@ == name;
        assert forall|j: int| 0 <= j < i implies entries[j].0@ != name by {
            if entries[j].0@ == name {
                assert(entries[i].0@ == entries[j].0@);
            }
        }
        assert(first_at(entries, name, i));
        let i2 = choose|i2: int| first_at(entries, name, i2);
        assert(entries[i2].0@ == entries[i].0@);
        assert(i2 == i);
        assert(leads(node, sheet, entries[i].0@, entries[i].1, ranks[i], at[i], upto));
        assert forall|q2: int, e2: int| #[trigger]
            applies(node, sheet, name, q2, e2) implies gives_way(
            node,
            sheet,
            q2,
            e2,
            at[i].0,
            at[i].1,
        ) by {
            assert(seen(q2, e2, upto));
        }
        assert(wins(node, sheet, name, at[i].0, at[i].1));
        let w = at[i];
        assert(wins(node, sheet, name, w.0, w.1));
        let p = choose|p: (int, int)| wins(node, sheet, name, p.0, p.1);
        assert(wins(node, sheet, name, p.0, p.1));
        assert(gives_way(node, sheet, p.0, p.1, w.0, w.1));
        assert(gives_way(node, sheet, w.0, w.1, p.0, p.1));
        assert(p == w);
    }
    assert(m@ =~= c);
}

/// The declarations that `sheet` gives `node`.
///
/// The rules are taken in sheet order and each rule's declarations in
/// their order. A declaration replaces the value that its property has
/// so far unless that value came from a rule of higher rank, which is
/// what sorting the matching rules by rank, keeping sheet order among
/// equals, and letting the last write win comes to.
pub fn get_specified_values(node: &Node, sheet: &Sheet) -> (values: PropertyMap)
    ensures
        values@ == cascade(node@, *sheet),
{
    let mut entries: Vec<(String, Value)> = Vec::new();
    let mut ranks: Vec<Specificity> = Vec::new();
    let ghost mut at: Seq<(int, int)> = Seq::empty();
    let mut r: usize = 0;
    while r < sheet.0.len()
        invariant
            r <= sheet.0.len(),
            resolved(node@, *sheet, entries@, ranks@, at, (r as int, 0)),
        decreases sheet.0.len() - r,
    {
        match match_rule(node, &sheet.0[r]) {
            Some((rank, rule)) => {
                let mut d: usize = 0;
                while d < rule.declarations.len()
                    invariant
                        r < sheet.0.len(),
                        *rule == sheet.0[r as int],
                        rule_rank(node@, sheet.0[r as int]) == Some(rank),
                        d <= rule.declarations.len(),
                        resolved(node@, *sheet, entries@, ranks@, at, (r as int, d as int)),
                    decreases rule.declarations.len() - d,
                {
                    let declaration = &rule.declarations[d];
                    match position_of(&entries, declaration.name.as_str()) {
                        Some(i) => {
                            if specificity_at_most(ranks[i], rank) {
                                let ghost before = entries@;
                                proof {
                                    lemma_cascade_replace(
                                        node@,
                                        *sheet,
                                        entries@,
                                        ranks@,
                                        at,
                                        r as int,
                                        d as int,
                                        i as int,
                                        before.update(i as int, (before[i as int].0, declaration.value)),
                                    );
                                }
                                entries[i].1 = declaration.value.duplicate();
                                ranks.set(i, rank);
                                proof {
                                    at = at.update(i as int, (r as int, d as int));
                                    assert(entries@ =~= before.update(
                                        i as int,
                                        (before[i as int].0, declaration.value),
                                    ));
                                }
                            } else {
                                proof {
                                    lemma_cascade_keep(
                                        node@,
                                        *sheet,
                                        entries@,
                                        ranks@,
                                        at,
                                        r as int,
                                        d as int,
                                        i as int,
                                    );
                                }
                            }
                        },
                        None => {
                            let name = declaration.name.clone();
                            proof {
                                lemma_cascade_push(
                                    node@,
                                    *sheet,
                                    entries@,
                                    ranks@,
                                    at,
                                    r as int,
                                    d as int,
                                    name,
                                );
                                at = at.push((r as int, d as int));
                            }
                            entries.push((name, declaration.value.duplicate()));
                            ranks.push(rank);
                        },
                    }
                    d += 1;
                }
                proof {
                    lemma_cascade_next_rule(node@, *sheet, entries@, ranks@, at, r as int, d as int);
                }
            },
            None => {
                proof {
                    lemma_cascade_next_rule(node@, *sheet, entries@, ranks@, at, r as int, 0);
                }
            },
        }
        r += 1;
    }
    let values = PropertyMap { entries };
    proof {
        lemma_cascade_done(node@, *sheet, values, ranks@, at);
    }
    values
}

/// The cascade gives a property the value of the declaration that wins:
/// there is at most one such declaration.
pub proof fn lemma_cascade_winner(node: Tree, sheet: Sheet, name: Seq<char>, r: int, d: int)
    requires
        wins(node, sheet, name, r, d),
    ensures
        cascade(node, sheet).contains_key(name),
        cascade(node, sheet)[name] == sheet.0[r].declarations[d].value,
{
    let w = (r, d);
    assert(wins(node, sheet, name, w.0, w.1));
    let p = choose|p: (int, int)| wins(node, sheet, name, p.0, p.1);
    assert(gives_way(node, sheet, p.0, p.1, r, d));
    assert(gives_way(node, sheet, r, d, p.0, p.1));
    assert(applies(node, sheet, name, r, d));
}

/// A rule gives way to a later rule of the same rank: where both apply
/// to a node and declare a property, no declaration of the earlier rule
/// decides the property.
pub proof fn lemma_earlier_rule_gives_way(
    node: Tree,
    sheet: Sheet,
    name: Seq<char>,
    r1: int,
    d1: int,
    r2: int,
    d2: int,
)
    requires
        applies(node, sheet, name, r1, d1),
        applies(node, sheet, name, r2, d2),
        r1 < r2,
        rule_rank(node, sheet.0[r1]) == rule_rank(node, sheet.0[r2]),
    ensures
        !wins(node, sheet, name, r1, d1),
{
    if wins(node, sheet, name, r1, d1) {
        assert(gives_way(node, sheet, r2, d2, r1, d1));
    }
}

/// Of two rules of the same rank that apply to a node and declare a
/// property that no other rule declares for the node, the later decides:
/// the property has the value of that rule's last declaration of it.
pub proof fn lemma_later_rule_wins(
    node: Tree,
    sheet: Sheet,
    name: Seq<char>,
    r1: int,
    d1: int,
    r2: int,
    d2: int,
)
    requires
        applies(node, sheet, name, r1, d1),
        applies(node, sheet, name, r2, d2),
        r1 < r2,
        rule_rank(node, sheet.0[r1]) == rule_rank(node, sheet.0[r2]),
        forall|q: int, e: int| #[trigger]
            applies(node, sheet, name, q, e) ==> q == r1 || (q == r2 && e <= d2),
    ensures
        cascade(node, sheet).contains_key(name),
        cascade(node, sheet)[name] == sheet.0[r2].declarations[d2].value,
{
    assert(wins(node, sheet, name, r2, d2));
    lemma_cascade_winner(node, sheet, name, r2, d2);
}

/// A rule of higher rank decides against any rule of lower rank, wherever
/// the two stand in the sheet.
pub proof fn lemma_lower_rank_gives_way(
    node: Tree,
    sheet: Sheet,
    name: Seq<char>,
    r1: int,
    d1: int,
    r2: int,
    d2: int,
)
    requires
        applies(node, sheet, name, r1, d1),
        applies(node, sheet, name, r2, d2),
        specificity_lt(rule_rank(node, sheet.0[r1])->0, rule_rank(node, sheet.0[r2])->0),
    ensures
        !wins(node, sheet, name, r1, d1),
{
    if wins(node, sheet, name, r1, d1) {
        assert(gives_way(node, sheet, r2, d2, r1, d1));
    }
}

/// Whether `s` is the styled tree of `node` under `sheet`: it stands for
/// `node`, holds the cascade for it, and its children are the styled trees
/// of the node's children, one each and in order. A text node has no
/// declarations and no children.
pub open spec fn styles<'a>(s: StyledNode<'a>, node: &'a Node, sheet: Sheet) -> bool
    decreases s,
{
    &&& s.node == node
    &&& match node {
        Node::Element { children, .. } => {
            &&& s.specified_values@ == cascade(node@, sheet)
            &&& s.children.len() == children.len()
            &&& forall|i: int|
                0 <= i < s.children.len() ==> styles(#[trigger] s.children[i], &children[i], sheet)
        },
        Node::Text(_) => {
            &&& s.specified_values@ == Map::<Seq<char>, Value>::empty()
            &&& s.children.len() == 0
        },
    }
}

/// The styled tree of `root` under `sheet`.
pub fn style_tree<'a>(root: &'a Node, sheet: &Sheet) -> (s: StyledNode<'a>)
    ensures
        styles(s, root, *sheet),
    decreases root,
{
    match root {
        Node::Element { children, .. } => {
            let mut styled: Vec<StyledNode<'a>> = Vec::new();
            let mut i: usize = 0;
            while i < children.len()
                invariant
                    i <= children.len(),
                    root is Element,
                    root->children == *children,
                    styled.len() == i,
                    forall|j: int| 0 <= j < i ==> styles(#[trigger] styled[j], &children[j], *sheet),
                decreases children.len() - i,
            {
                styled.push(style_tree(&children[i], sheet));
                i += 1;
            }
            StyledNode {
                node: root,
                specified_values: get_specified_values(root, sheet),
                children: styled,
            }
        },
        Node::Text(_) => StyledNode {
            node: root,
            specified_values: PropertyMap::new(),
            children: Vec::new(),
        },
    }
}

} // verus!
