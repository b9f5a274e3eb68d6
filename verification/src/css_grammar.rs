//! The grammar of style sheets above the level of values: declarations and
//! their blocks, selectors, rules and sheets.

use vstd::prelude::*;
use crate::css::{
    AttrOp, Declaration, DeclarationModel, Rule, RuleModel, Selector, SelectorModel, Sheet,
    declaration_models, names, predicates, rule_models, selector_models,
};
use crate::css::{specificity_at_most, specificity_lt};
use crate::css_syntax::{
    blank_end, color_at, comment_at, hex_value_one_at, hex_value_two_at, identifier_at,
    lemma_blank_end, lemma_skips, lemma_value_advances, read_blanks, read_color, read_comment,
    read_hex_value_one, read_hex_value_two, read_identifier, read_value, value_at,
};
use crate::css::{Value};
use crate::html::at;
use crate::text::chars_of;

verus! {

/// A declaration at `pos`: a property name, `:` and a value, with
/// optional blanks around the colon.
pub open spec fn declaration_at(s: Seq<char>, pos: int) -> Option<(DeclarationModel, int)> {
    match identifier_at(s, pos) {
        Some((name, after_name)) => {
            let colon = blank_end(s, after_name);
            if at(s, colon, ':') {
                match value_at(s, blank_end(s, colon + 1)) {
                    Some((value, end)) => Some((DeclarationModel { name, value }, end)),
                    None => None,
                }
            } else {
                None
            }
        },
        None => None,
    }
}

/// The delimiter of declarations at `pos`: `;` with optional blanks
/// around it. Where it ends.
pub open spec fn decl_delimiter_at(s: Seq<char>, pos: int) -> Option<int> {
    let p = blank_end(s, pos);
    if at(s, p, ';') {
        Some(blank_end(s, p + 1))
    } else {
        None
    }
}

/// The delimiter of selectors at `pos`: `,` with optional blanks around
/// it. Where it ends.
pub open spec fn selector_delimiter_at(s: Seq<char>, pos: int) -> Option<int> {
    let p = blank_end(s, pos);
    if at(s, p, ',') {
        Some(blank_end(s, p + 1))
    } else {
        None
    }
}

/// What is read ends behind where it starts, within the text.
pub proof fn lemma_declaration_advances(s: Seq<char>, pos: int)
    requires
        0 <= pos <= s.len(),
    ensures
        identifier_at(s, pos) matches Some((_, end)) ==> pos < end <= s.len(),
        declaration_at(s, pos) matches Some((_, end)) ==> pos < end <= s.len(),
        decl_delimiter_at(s, pos) matches Some(end) ==> pos < end <= s.len(),
        selector_delimiter_at(s, pos) matches Some(end) ==> pos < end <= s.len(),
{
    lemma_blank_end(s, pos);
    let p = blank_end(s, pos);
    if p < s.len() {
        lemma_blank_end(s, p + 1);
    }
    if pos < s.len() {
        lemma_skips(s, pos + 1);
        match identifier_at(s, pos) {
            Some((name, after_name)) => {
                lemma_blank_end(s, after_name);
                let colon = blank_end(s, after_name);
                if at(s, colon, ':') {
                    lemma_blank_end(s, colon + 1);
                    lemma_value_advances(s, blank_end(s, colon + 1));
                }
            },
            None => {},
        }
    }
}

/// The declarations behind one that ends at `pos`: each behind a
/// delimiter, as many as can be read.
pub open spec fn more_declarations_at(s: Seq<char>, pos: int) -> (Seq<DeclarationModel>, int)
    decreases s.len() - pos,
{
    if !(0 <= pos <= s.len()) {
        (Seq::empty(), pos)
    } else {
        match decl_delimiter_at(s, pos) {
            Some(p) => match declaration_at(s, p) {
                Some((d, end)) => {
                    proof {
                        lemma_declaration_advances(s, pos);
                        lemma_declaration_advances(s, p);
                    }
                    let (rest, last) = more_declarations_at(s, end);
                    (seq![d] + rest, last)
                },
                None => (Seq::empty(), pos),
            },
            None => (Seq::empty(), pos),
        }
    }
}

/// The declarations at `pos`, with delimiters between them: as many as
/// can be read, maybe none.
pub open spec fn declarations_at(s: Seq<char>, pos: int) -> (Seq<DeclarationModel>, int) {
    match declaration_at(s, pos) {
        Some((d, end)) => {
            let (rest, last) = more_declarations_at(s, end);
            (seq![d] + rest, last)
        },
        None => (Seq::empty(), pos),
    }
}

/// A block of declarations at `pos`: `{`, declarations with delimiters
/// between them and maybe one behind them, and `}`, with optional blanks
/// around each part.
pub open spec fn declaration_block_at(s: Seq<char>, pos: int) -> Option<(Seq<DeclarationModel>, int)> {
    let open = blank_end(s, pos);
    if at(s, open, '{') {
        let (declarations, end) = declarations_at(s, blank_end(s, open + 1));
        let after = match decl_delimiter_at(s, end) {
            Some(p) => p,
            None => end,
        };
        let close = blank_end(s, after);
        if at(s, close, '}') {
            Some((declarations, blank_end(s, close + 1)))
        } else {
            None
        }
    } else {
        None
    }
}

/// A part of a simple selector.
pub enum Component {
    Id(Seq<char>),
    Class(Seq<char>),
    Attribute(Seq<char>, AttrOp, Seq<char>),
    Tag(Seq<char>),
    Universal,
}

/// A part of a simple selector at `pos`: `#` and a name, `.` and a name,
/// `[`, a name, `=`, a value and `]`, a tag name, or `*`.
pub open spec fn component_at(s: Seq<char>, pos: int) -> Option<(Component, int)> {
    if at(s, pos, '#') {
        match identifier_at(s, pos + 1) {
            Some((name, end)) => Some((Component::Id(name), end)),
            None => None,
        }
    } else if at(s, pos, '.') {
        match identifier_at(s, pos + 1) {
            Some((name, end)) => Some((Component::Class(name), end)),
            None => None,
        }
    } else if at(s, pos, '[') {
        match identifier_at(s, pos + 1) {
            Some((name, eq)) => if at(s, eq, '=') {
                match identifier_at(s, eq + 1) {
                    Some((value, close)) => if at(s, close, ']') {
                        Some((Component::Attribute(name, AttrOp::Eq, value), close + 1))
                    } else {
                        None
                    },
                    None => None,
                }
            } else {
                None
            },
            None => None,
        }
    } else if at(s, pos, '*') {
        Some((Component::Universal, pos + 1))
    } else {
        match identifier_at(s, pos) {
            Some((name, end)) => Some((Component::Tag(name), end)),
            None => None,
        }
    }
}

/// A part that is read ends behind where it starts, within the text.
pub proof fn lemma_component_advances(s: Seq<char>, pos: int)
    requires
        0 <= pos <= s.len(),
    ensures
        component_at(s, pos) matches Some((_, end)) ==> pos < end <= s.len(),
{
    if pos < s.len() {
        lemma_skips(s, pos + 1);
        if pos + 1 < s.len() {
            lemma_skips(s, pos + 2);
            match identifier_at(s, pos + 1) {
                Some((name, eq)) => {
                    if eq + 1 < s.len() {
                        lemma_skips(s, eq + 2);
                    }
                },
                None => {},
            }
        }
    }
}

/// The parts of a simple selector at `pos`: as many as can be read.
pub open spec fn components_at(s: Seq<char>, pos: int) -> (Seq<Component>, int)
    decreases s.len() - pos,
{
    if !(0 <= pos <= s.len()) {
        (Seq::empty(), pos)
    } else {
        match component_at(s, pos) {
            Some((c, end)) => {
                proof {
                    lemma_component_advances(s, pos);
                }
                let (rest, last) = components_at(s, end);
                (seq![c] + rest, last)
            },
            None => (Seq::empty(), pos),
        }
    }
}

/// The ids among `parts`, in order.
pub open spec fn ids_of(parts: Seq<Component>) -> Seq<Seq<char>>
    decreases parts.len(),
{
    if parts.len() == 0 {
        Seq::empty()
    } else {
        match parts.last() {
            Component::Id(name) => ids_of(parts.drop_last()).push(name),
            _ => ids_of(parts.drop_last()),
        }
    }
}

/// The classes among `parts`, in order.
pub open spec fn classes_of(parts: Seq<Component>) -> Seq<Seq<char>>
    decreases parts.len(),
{
    if parts.len() == 0 {
        Seq::empty()
    } else {
        match parts.last() {
            Component::Class(name) => classes_of(parts.drop_last()).push(name),
            _ => classes_of(parts.drop_last()),
        }
    }
}

/// The tags among `parts`, in order.
pub open spec fn tags_of(parts: Seq<Component>) -> Seq<Seq<char>>
    decreases parts.len(),
{
    if parts.len() == 0 {
        Seq::empty()
    } else {
        match parts.last() {
            Component::Tag(name) => tags_of(parts.drop_last()).push(name),
            _ => tags_of(parts.drop_last()),
        }
    }
}

/// The attribute predicates among `parts`, in order.
pub open spec fn attributes_of(parts: Seq<Component>) -> Seq<(Seq<char>, AttrOp, Seq<char>)>
    decreases parts.len(),
{
    if parts.len() == 0 {
        Seq::empty()
    } else {
        match parts.last() {
            Component::Attribute(name, op, value) => attributes_of(parts.drop_last()).push(
                (name, op, value),
            ),
            _ => attributes_of(parts.drop_last()),
        }
    }
}

/// The first of `v`, if it has one.
pub open spec fn first_of(v: Seq<Seq<char>>) -> Option<Seq<char>> {
    if v.len() == 0 {
        None
    } else {
        Some(v[0])
    }
}

/// A simple selector at `pos`: one or more parts, of which at most one
/// is an id and at most one a tag.
pub open spec fn simple_selector_at(s: Seq<char>, pos: int) -> Option<(SelectorModel, int)> {
    let (parts, end) = components_at(s, pos);
    if parts.len() == 0 || ids_of(parts).len() > 1 || tags_of(parts).len() > 1 {
        None
    } else {
        Some(
            (
                SelectorModel {
                    tag: first_of(tags_of(parts)),
                    class: classes_of(parts),
                    id: first_of(ids_of(parts)),
                    attr: attributes_of(parts),
                },
                end,
            ),
        )
    }
}

/// What is read ends behind where it starts, within the text.
pub proof fn lemma_components_advance(s: Seq<char>, pos: int)
    requires
        0 <= pos <= s.len(),
    ensures
        pos <= components_at(s, pos).1 <= s.len(),
        components_at(s, pos).0.len() > 0 ==> pos < components_at(s, pos).1,
    decreases s.len() - pos,
{
    lemma_component_advances(s, pos);
    match component_at(s, pos) {
        Some((c, end)) => {
            lemma_components_advance(s, end);
        },
        None => {},
    }
}

/// Whether rank `a` is lower than rank `b`.
pub open spec fn rank_lt(a: (int, int, int), b: (int, int, int)) -> bool {
    a.0 < b.0 || (a.0 == b.0 && (a.1 < b.1 || (a.1 == b.1 && a.2 < b.2)))
}

/// `sorted` with `x` put in behind the last selector that does not rank
/// lower than `x`, where `sorted` is in descending order of rank.
pub open spec fn placed_by_rank(sorted: Seq<SelectorModel>, x: SelectorModel) -> Seq<SelectorModel>
    decreases sorted.len(),
{
    if sorted.len() > 0 && rank_lt(sorted.last().rank(), x.rank()) {
        placed_by_rank(sorted.drop_last(), x).push(sorted.last())
    } else {
        sorted.push(x)
    }
}

/// `selectors` in descending order of rank; selectors of one rank keep
/// their order.
pub open spec fn by_rank(selectors: Seq<SelectorModel>) -> Seq<SelectorModel>
    decreases selectors.len(),
{
    if selectors.len() == 0 {
        Seq::empty()
    } else {
        placed_by_rank(by_rank(selectors.drop_last()), selectors.last())
    }
}

/// Whether `selectors` are in descending order of rank.
pub open spec fn descending(selectors: Seq<SelectorModel>) -> bool {
    forall|i: int, j: int|
        0 <= i < j < selectors.len() ==> !rank_lt(
            (#[trigger] selectors[i]).rank(),
            (#[trigger] selectors[j]).rank(),
        )
}

/// Placing a selector keeps the order and adds that selector, once.
pub proof fn lemma_placed_by_rank(sorted: Seq<SelectorModel>, x: SelectorModel)
    requires
        descending(sorted),
    ensures
        descending(placed_by_rank(sorted, x)),
        placed_by_rank(sorted, x).to_multiset() == sorted.to_multiset().insert(x),
    decreases sorted.len(),
{
    broadcast use vstd::seq_lib::group_to_multiset_ensures;

    let placed = placed_by_rank(sorted, x);
    if sorted.len() > 0 && rank_lt(sorted.last().rank(), x.rank()) {
        let front = sorted.drop_last();
        let inner = placed_by_rank(front, x);
        assert forall|i: int, j: int| 0 <= i < j < front.len() implies !rank_lt(
            (#[trigger] front[i]).rank(),
            (#[trigger] front[j]).rank(),
        ) by {
            assert(front[i] == sorted[i] && front[j] == sorted[j]);
        }
        lemma_placed_by_rank(front, x);
        assert(placed == inner.push(sorted.last()));
        assert(sorted =~= front.push(sorted.last()));
        assert forall|i: int, j: int| 0 <= i < j < placed.len() implies !rank_lt(
            (#[trigger] placed[i]).rank(),
            (#[trigger] placed[j]).rank(),
        ) by {
            if j < placed.len() - 1 {
                assert(placed[i] == inner[i] && placed[j] == inner[j]);
            } else {
                assert(placed[i] == inner[i]);
                assert(inner.to_multiset().count(inner[i]) > 0);
                if inner[i] != x {
                    assert(front.to_multiset().count(inner[i]) > 0);
                    let k = choose|k: int| 0 <= k < front.len() && front[k] == inner[i];
                    assert(sorted[k] == inner[i]);
                    assert(sorted[sorted.len() - 1] == sorted.last());
                }
            }
        }
        assert(placed.to_multiset() =~= sorted.to_multiset().insert(x));
    } else {
        assert(placed == sorted.push(x));
        assert forall|i: int, j: int| 0 <= i < j < placed.len() implies !rank_lt(
            (#[trigger] placed[i]).rank(),
            (#[trigger] placed[j]).rank(),
        ) by {
            if j < placed.len() - 1 {
                assert(placed[i] == sorted[i] && placed[j] == sorted[j]);
            } else if sorted.len() > 0 {
                assert(placed[i] == sorted[i]);
                assert(placed[j] == x);
                if i < sorted.len() - 1 {
                    assert(!rank_lt(sorted[i].rank(), sorted[sorted.len() - 1].rank()));
                }
            }
        }
    }
}

/// The selectors of a rule are read in descending order of rank: sorting
/// puts the same selectors, each as often as it occurs, in that order.
pub proof fn lemma_by_rank(selectors: Seq<SelectorModel>)
    ensures
        descending(by_rank(selectors)),
        by_rank(selectors).to_multiset() == selectors.to_multiset(),
        by_rank(selectors).len() == selectors.len(),
    decreases selectors.len(),
{
    broadcast use vstd::seq_lib::group_to_multiset_ensures;

    if selectors.len() > 0 {
        lemma_by_rank(selectors.drop_last());
        lemma_placed_by_rank(by_rank(selectors.drop_last()), selectors.last());
        assert(selectors =~= selectors.drop_last().push(selectors.last()));
        assert(by_rank(selectors).to_multiset() =~= selectors.to_multiset());
    } else {
        assert(by_rank(selectors) =~= selectors);
    }
    by_rank(selectors).to_multiset_ensures();
    selectors.to_multiset_ensures();
}

/// The simple selectors behind one that ends at `pos`: each behind a
/// delimiter, as many as can be read.
pub open spec fn more_selectors_at(s: Seq<char>, pos: int) -> (Seq<SelectorModel>, int)
    decreases s.len() - pos,
{
    if !(0 <= pos <= s.len()) {
        (Seq::empty(), pos)
    } else {
        match selector_delimiter_at(s, pos) {
            Some(p) => match simple_selector_at(s, p) {
                Some((sel, end)) => {
                    proof {
                        lemma_declaration_advances(s, pos);
                        lemma_components_advance(s, p);
                    }
                    let (rest, last) = more_selectors_at(s, end);
                    (seq![sel] + rest, last)
                },
                None => (Seq::empty(), pos),
            },
            None => (Seq::empty(), pos),
        }
    }
}

/// The selectors of a rule at `pos`: one or more simple selectors with
/// delimiters between them, put in descending order of rank.
pub open spec fn selectors_at(s: Seq<char>, pos: int) -> Option<(Seq<SelectorModel>, int)> {
    match simple_selector_at(s, pos) {
        Some((first, end)) => {
            let (rest, last) = more_selectors_at(s, end);
            Some((by_rank(seq![first] + rest), last))
        },
        None => None,
    }
}

/// What is read ends within the text, not before where it starts.
pub proof fn lemma_more_bounds(s: Seq<char>, pos: int)
    requires
        0 <= pos <= s.len(),
    ensures
        pos <= more_declarations_at(s, pos).1 <= s.len(),
        pos <= more_selectors_at(s, pos).1 <= s.len(),
        pos <= declarations_at(s, pos).1 <= s.len(),
    decreases s.len() - pos,
{
    lemma_declaration_advances(s, pos);
    match decl_delimiter_at(s, pos) {
        Some(p) => {
            lemma_declaration_advances(s, p);
            match declaration_at(s, p) {
                Some((d, end)) => {
                    lemma_more_bounds(s, end);
                },
                None => {},
            }
        },
        None => {},
    }
    match selector_delimiter_at(s, pos) {
        Some(p) => {
            lemma_components_advance(s, p);
            match simple_selector_at(s, p) {
                Some((sel, end)) => {
                    lemma_more_bounds(s, end);
                },
                None => {},
            }
        },
        None => {},
    }
    match declaration_at(s, pos) {
        Some((d, end)) => {
            lemma_more_bounds(s, end);
        },
        None => {},
    }
}

/// A block that is read ends behind where it starts, within the text.
pub proof fn lemma_block_advances(s: Seq<char>, pos: int)
    requires
        0 <= pos <= s.len(),
    ensures
        declaration_block_at(s, pos) matches Some((_, end)) ==> pos < end <= s.len(),
{
    lemma_blank_end(s, pos);
    let open = blank_end(s, pos);
    if at(s, open, '{') {
        lemma_blank_end(s, open + 1);
        lemma_more_bounds(s, blank_end(s, open + 1));
        let (declarations, end) = declarations_at(s, blank_end(s, open + 1));
        lemma_declaration_advances(s, end);
        let after = match decl_delimiter_at(s, end) {
            Some(p) => p,
            None => end,
        };
        lemma_blank_end(s, after);
        let close = blank_end(s, after);
        if at(s, close, '}') {
            lemma_blank_end(s, close + 1);
        }
    }
}

/// A rule that is read ends behind where it starts, within the text.
pub proof fn lemma_rule_advances(s: Seq<char>, pos: int)
    requires
        0 <= pos <= s.len(),
    ensures
        css_rule_at(s, pos) matches Some((_, end)) ==> pos < end <= s.len(),
        selectors_at(s, pos) matches Some((_, end)) ==> pos < end <= s.len(),
{
    lemma_components_advance(s, pos);
    match simple_selector_at(s, pos) {
        Some((first, end)) => {
            lemma_more_bounds(s, end);
            let last = more_selectors_at(s, end).1;
            lemma_blank_end(s, last);
            lemma_block_advances(s, blank_end(s, last));
        },
        None => {},
    }
}

/// A rule at `pos`: selectors and a block of declarations.
pub open spec fn css_rule_at(s: Seq<char>, pos: int) -> Option<(RuleModel, int)> {
    match selectors_at(s, pos) {
        Some((selectors, end)) => match declaration_block_at(s, blank_end(s, end)) {
            Some((declarations, last)) => Some((RuleModel { selectors, declarations }, last)),
            None => None,
        },
        None => None,
    }
}

/// The rules from `pos` on, with optional blanks before each: as many as
/// can be read.
pub open spec fn rules_from(s: Seq<char>, pos: int) -> (Seq<RuleModel>, int)
    decreases s.len() - pos,
{
    if !(0 <= pos <= s.len()) {
        (Seq::empty(), pos)
    } else {
        match css_rule_at(s, blank_end(s, pos)) {
            Some((rule, end)) => {
                proof {
                    lemma_blank_end(s, pos);
                    lemma_rule_advances(s, blank_end(s, pos));
                }
                let (rest, last) = rules_from(s, end);
                (seq![rule] + rest, last)
            },
            None => (Seq::empty(), pos),
        }
    }
}

/// The rules of the sheet `s`: `None` unless rules with optional blanks
/// around them are all that `s` holds.
pub open spec fn sheet_of(s: Seq<char>) -> Option<Seq<RuleModel>> {
    let (rules, end) = rules_from(s, 0);
    if blank_end(s, end) == s.len() {
        Some(rules)
    } else {
        None
    }
}

/// Reads a declaration at `pos`.
pub fn read_declaration(s: &Vec<char>, pos: usize) -> (r: Option<(Declaration, usize)>)
    requires
        pos <= s.len(),
    ensures
        match r {
            Some((d, end)) => declaration_at(s@, pos as int) == Some((d@, end as int)) && pos < end
                <= s.len(),
            None => declaration_at(s@, pos as int) is None,
        },
{
    let (name, after_name) = match read_identifier(s, pos) {
        Some(x) => x,
        None => {
            return None;
        },
    };
    let colon = read_blanks(s, after_name);
    if !(colon < s.len() && s[colon] == ':') {
        return None;
    }
    let start = read_blanks(s, colon + 1);
    match read_value(s, start) {
        Some((value, end)) => Some((Declaration { name, value }, end)),
        None => None,
    }
}

/// Reads the character `c` with optional blanks around it.
fn read_delimiter(s: &Vec<char>, pos: usize, c: char) -> (r: Option<usize>)
    requires
        pos <= s.len(),
    ensures
        ({
            let p = blank_end(s@, pos as int);
            match r {
                Some(end) => at(s@, p, c) && end == blank_end(s@, p + 1) && pos < end <= s.len(),
                None => !at(s@, p, c),
            }
        }),
{
    let p = read_blanks(s, pos);
    if p < s.len() && s[p] == c {
        Some(read_blanks(s, p + 1))
    } else {
        None
    }
}

/// Reads declarations with delimiters between them at `pos`.
fn read_declarations(s: &Vec<char>, pos: usize) -> (r: (Vec<Declaration>, usize))
    requires
        pos <= s.len(),
    ensures
        declarations_at(s@, pos as int) == (declaration_models(r.0@), r.1 as int),
        pos <= r.1 <= s.len(),
{
    let mut declarations: Vec<Declaration> = Vec::new();
    let first = match read_declaration(s, pos) {
        Some((d, end)) => {
            declarations.push(d);
            end
        },
        None => {
            assert(declaration_models(declarations@) =~= Seq::empty());
            return (declarations, pos);
        },
    };
    let ghost head = declaration_models(declarations@);
    let ghost mut done: Seq<DeclarationModel> = Seq::empty();
    let mut end = first;
    assert(head + done =~= declaration_models(declarations@));
    loop
        invariant
            pos < first <= end <= s.len(),
            head.len() == 1,
            declarations_at(s@, pos as int) == (
                head + more_declarations_at(s@, first as int).0,
                more_declarations_at(s@, first as int).1,
            ),
            more_declarations_at(s@, first as int) == (
                done + more_declarations_at(s@, end as int).0,
                more_declarations_at(s@, end as int).1,
            ),
            declaration_models(declarations@) == head + done,
        decreases s.len() - end,
    {
        let ghost here = more_declarations_at(s@, end as int);
        let p = match read_delimiter(s, end, ';') {
            Some(p) => p,
            None => {
                proof {
                    assert(decl_delimiter_at(s@, end as int) is None);
                    assert(here == (Seq::<DeclarationModel>::empty(), end as int));
                    assert(done + Seq::<DeclarationModel>::empty() =~= done);
                }
                return (declarations, end);
            },
        };
        assert(decl_delimiter_at(s@, end as int) == Some(p as int));
        let (d, after) = match read_declaration(s, p) {
            Some(x) => x,
            None => {
                proof {
                    assert(here == (Seq::<DeclarationModel>::empty(), end as int));
                    assert(done + Seq::<DeclarationModel>::empty() =~= done);
                }
                return (declarations, end);
            },
        };
        proof {
            let rest = more_declarations_at(s@, after as int);
            assert(here == (seq![d@] + rest.0, rest.1));
            assert(done + (seq![d@] + rest.0) =~= done.push(d@) + rest.0);
            assert(declaration_models(declarations@.push(d)) =~= declaration_models(
                declarations@,
            ).push(d@));
            assert((head + done).push(d@) =~= head + done.push(d@));
            done = done.push(d@);
        }
        declarations.push(d);
        end = after;
    }
}

/// Reads a block of declarations at `pos`.
pub fn read_declaration_block(s: &Vec<char>, pos: usize) -> (r: Option<(Vec<Declaration>, usize)>)
    requires
        pos <= s.len(),
    ensures
        match r {
            Some((ds, end)) => declaration_block_at(s@, pos as int) == Some(
                (declaration_models(ds@), end as int),
            ) && pos < end <= s.len(),
            None => declaration_block_at(s@, pos as int) is None,
        },
{
    let open = read_blanks(s, pos);
    if !(open < s.len() && s[open] == '{') {
        return None;
    }
    let start = read_blanks(s, open + 1);
    let (declarations, end) = read_declarations(s, start);
    let after = match read_delimiter(s, end, ';') {
        Some(p) => p,
        None => end,
    };
    let close = read_blanks(s, after);
    if !(close < s.len() && s[close] == '}') {
        return None;
    }
    Some((declarations, read_blanks(s, close + 1)))
}

/// A part of a simple selector.
pub enum SelectorComponent {
    Id(String),
    Class(String),
    Attribute(String, AttrOp, String),
    Tag(String),
    Universal,
}

impl View for SelectorComponent {
    type V = Component;

    open spec fn view(&self) -> Component {
        match self {
            SelectorComponent::Id(s) => Component::Id(s@),
            SelectorComponent::Class(s) => Component::Class(s@),
            SelectorComponent::Attribute(n, o, v) => Component::Attribute(n@, *o, v@),
            SelectorComponent::Tag(s) => Component::Tag(s@),
            SelectorComponent::Universal => Component::Universal,
        }
    }
}

/// Reads a part of a simple selector at `pos`.
fn read_component(s: &Vec<char>, pos: usize) -> (r: Option<(SelectorComponent, usize)>)
    requires
        pos <= s.len(),
    ensures
        match r {
            Some((c, end)) => component_at(s@, pos as int) == Some((c@, end as int)) && pos < end
                <= s.len(),
            None => component_at(s@, pos as int) is None,
        },
{
    if pos < s.len() && s[pos] == '#' {
        match read_identifier(s, pos + 1) {
            Some((name, end)) => Some((SelectorComponent::Id(name), end)),
            None => None,
        }
    } else if pos < s.len() && s[pos] == '.' {
        match read_identifier(s, pos + 1) {
            Some((name, end)) => Some((SelectorComponent::Class(name), end)),
            None => None,
        }
    } else if pos < s.len() && s[pos] == '[' {
        let (name, eq) = match read_identifier(s, pos + 1) {
            Some(x) => x,
            None => {
                return None;
            },
        };
        if !(eq < s.len() && s[eq] == '=') {
            return None;
        }
        let (value, close) = match read_identifier(s, eq + 1) {
            Some(x) => x,
            None => {
                return None;
            },
        };
        if !(close < s.len() && s[close] == ']') {
            return None;
        }
        Some((SelectorComponent::Attribute(name, AttrOp::Eq, value), close + 1))
    } else if pos < s.len() && s[pos] == '*' {
        Some((SelectorComponent::Universal, pos + 1))
    } else {
        match read_identifier(s, pos) {
            Some((name, end)) => Some((SelectorComponent::Tag(name), end)),
            None => None,
        }
    }
}

/// Reads a simple selector at `pos`.
pub fn read_simple_selector(s: &Vec<char>, pos: usize) -> (r: Option<(Selector, usize)>)
    requires
        pos <= s.len(),
    ensures
        match r {
            Some((sel, end)) => simple_selector_at(s@, pos as int) == Some((sel@, end as int)) && pos
                < end <= s.len(),
            None => simple_selector_at(s@, pos as int) is None,
        },
{
    let mut ids: Vec<String> = Vec::new();
    let mut classes: Vec<String> = Vec::new();
    let mut attributes: Vec<(String, AttrOp, String)> = Vec::new();
    let mut tags: Vec<String> = Vec::new();
    let ghost mut done: Seq<Component> = Seq::empty();
    let mut end = pos;
    assert(names(ids@) =~= ids_of(done));
    assert(names(classes@) =~= classes_of(done));
    assert(names(tags@) =~= tags_of(done));
    assert(predicates(attributes@) =~= attributes_of(done));
    assert(done + components_at(s@, end as int).0 =~= components_at(s@, end as int).0);
    loop
        invariant
            pos <= end <= s.len(),
            done.len() > 0 ==> pos < end,
            components_at(s@, pos as int) == (
                done + components_at(s@, end as int).0,
                components_at(s@, end as int).1,
            ),
            names(ids@) == ids_of(done),
            names(classes@) == classes_of(done),
            names(tags@) == tags_of(done),
            predicates(attributes@) == attributes_of(done),
        decreases s.len() - end,
    {
        match read_component(s, end) {
            Some((c, after)) => {
                proof {
                    let rest = components_at(s@, after as int).0;
                    assert(done + (seq![c@] + rest) =~= done.push(c@) + rest);
                    assert(done.push(c@).drop_last() =~= done);
                }
                let ghost before_ids = ids@;
                let ghost before_classes = classes@;
                let ghost before_tags = tags@;
                let ghost before_attributes = attributes@;
                match c {
                    SelectorComponent::Id(name) => {
                        ids.push(name);
                        assert(names(ids@) =~= names(before_ids).push(name@));
                    },
                    SelectorComponent::Class(name) => {
                        classes.push(name);
                        assert(names(classes@) =~= names(before_classes).push(name@));
                    },
                    SelectorComponent::Attribute(n, o, v) => {
                        attributes.push((n, o, v));
                        assert(predicates(attributes@) =~= predicates(before_attributes).push(
                            (n@, o, v@),
                        ));
                    },
                    SelectorComponent::Tag(name) => {
                        tags.push(name);
                        assert(names(tags@) =~= names(before_tags).push(name@));
                    },
                    SelectorComponent::Universal => {},
                }
                proof {
                    done = done.push(c@);
                }
                end = after;
            },
            None => {
                proof {
                    assert(done + Seq::<Component>::empty() =~= done);
                }
                if end == pos {
                    return None;
                }
                if ids.len() > 1 {
                    return None;
                }
                if tags.len() > 1 {
                    return None;
                }
                let tag = tags.pop();
                let id = ids.pop();
                return Some((Selector { tag, class: classes, id, attr: attributes }, end));
            },
        }
    }
}

/// The specificity of a selector agrees with the rank of its model.
proof fn lemma_rank(a: Selector, b: Selector)
    ensures
        specificity_lt(a.specificity(), b.specificity()) == rank_lt(a@.rank(), b@.rank()),
{
}

/// Placing `x` leaves alone the selectors before the first that ranks
/// lower than all behind it.
proof fn lemma_placed(m: Seq<SelectorModel>, x: SelectorModel, i: int)
    requires
        0 <= i <= m.len(),
        forall|j: int| i <= j < m.len() ==> rank_lt(#[trigger] m[j].rank(), x.rank()),
        i > 0 ==> !rank_lt(m[i - 1].rank(), x.rank()),
    ensures
        placed_by_rank(m, x) == m.insert(i, x),
    decreases m.len() - i,
{
    if i < m.len() {
        lemma_placed(m.drop_last(), x, i);
        assert(m.drop_last().insert(i, x).push(m.last()) =~= m.insert(i, x));
    } else {
        assert(m.push(x) =~= m.insert(i, x));
    }
}

/// Puts `x` into `sorted` behind the last selector that does not rank lower.
fn insert_by_rank(sorted: &mut Vec<Selector>, x: Selector)
    ensures
        selector_models(final(sorted)@) == placed_by_rank(selector_models(old(sorted)@), x@),
{
    let rank = x.get_specificity();
    let ghost m = selector_models(sorted@);
    let mut i = sorted.len();
    while i > 0 && !specificity_at_most(rank, sorted[i - 1].get_specificity())
        invariant
            0 <= i <= sorted.len(),
            sorted@ == old(sorted)@,
            m == selector_models(sorted@),
            rank == x.specificity(),
            forall|j: int| i <= j < m.len() ==> rank_lt(#[trigger] m[j].rank(), x@.rank()),
        decreases i,
    {
        proof {
            lemma_rank(sorted@[i - 1], x);
        }
        i -= 1;
    }
    proof {
        if i > 0 {
            lemma_rank(sorted@[i - 1], x);
        }
        lemma_placed(m, x@, i as int);
    }
    sorted.insert(i, x);
    assert(selector_models(sorted@) =~= m.insert(i as int, x@));
}

/// Reads the selectors of a rule at `pos`.
pub fn read_selectors(s: &Vec<char>, pos: usize) -> (r: Option<(Vec<Selector>, usize)>)
    requires
        pos <= s.len(),
    ensures
        match r {
            Some((sels, end)) => selectors_at(s@, pos as int) == Some(
                (selector_models(sels@), end as int),
            ) && pos < end <= s.len(),
            None => selectors_at(s@, pos as int) is None,
        },
{
    let (first, start) = match read_simple_selector(s, pos) {
        Some(x) => x,
        None => {
            return None;
        },
    };
    let mut sorted: Vec<Selector> = Vec::new();
    let ghost first_model = first@;
    let ghost head = seq![first_model];
    let ghost mut done: Seq<SelectorModel> = Seq::empty();
    proof {
        assert(selector_models(sorted@) =~= Seq::empty());
        assert((head + done).drop_last() =~= Seq::<SelectorModel>::empty());
        assert(by_rank((head + done).drop_last()) =~= Seq::<SelectorModel>::empty());
        assert((head + done).last() == first@);
    }
    insert_by_rank(&mut sorted, first);
    let mut end = start;
    proof {
        assert(done + more_selectors_at(s@, end as int).0 =~= more_selectors_at(s@, end as int).0);
    }
    loop
        invariant
            pos < start <= end <= s.len(),
            head == seq![first_model],
            simple_selector_at(s@, pos as int) == Some((first_model, start as int)),
            more_selectors_at(s@, start as int) == (
                done + more_selectors_at(s@, end as int).0,
                more_selectors_at(s@, end as int).1,
            ),
            selector_models(sorted@) == by_rank(head + done),
        decreases s.len() - end,
    {
        let ghost here = more_selectors_at(s@, end as int);
        let p = match read_delimiter(s, end, ',') {
            Some(p) => p,
            None => {
                proof {
                    assert(selector_delimiter_at(s@, end as int) is None);
                    assert(here == (Seq::<SelectorModel>::empty(), end as int));
                    assert(done + Seq::<SelectorModel>::empty() =~= done);
                }
                return Some((sorted, end));
            },
        };
        assert(selector_delimiter_at(s@, end as int) == Some(p as int));
        let (sel, after) = match read_simple_selector(s, p) {
            Some(x) => x,
            None => {
                proof {
                    assert(here == (Seq::<SelectorModel>::empty(), end as int));
                    assert(done + Seq::<SelectorModel>::empty() =~= done);
                }
                return Some((sorted, end));
            },
        };
        proof {
            let rest = more_selectors_at(s@, after as int);
            assert(here == (seq![sel@] + rest.0, rest.1));
            assert(done + (seq![sel@] + rest.0) =~= done.push(sel@) + rest.0);
            assert((head + done.push(sel@)).drop_last() =~= head + done);
            assert((head + done.push(sel@)).last() == sel@);
            done = done.push(sel@);
        }
        insert_by_rank(&mut sorted, sel);
        end = after;
    }
}

/// Reads a rule at `pos`.
pub fn read_css_rule(s: &Vec<char>, pos: usize) -> (r: Option<(Rule, usize)>)
    requires
        pos <= s.len(),
    ensures
        match r {
            Some((rule, end)) => css_rule_at(s@, pos as int) == Some((rule@, end as int)) && pos < end
                <= s.len(),
            None => css_rule_at(s@, pos as int) is None,
        },
{
    let (selectors, end) = match read_selectors(s, pos) {
        Some(x) => x,
        None => {
            return None;
        },
    };
    let start = read_blanks(s, end);
    match read_declaration_block(s, start) {
        Some((declarations, last)) => Some((Rule { selectors, declarations }, last)),
        None => None,
    }
}

/// Reads rules from `pos` on.
pub fn read_rules(s: &Vec<char>, pos: usize) -> (r: (Vec<Rule>, usize))
    requires
        pos <= s.len(),
    ensures
        rules_from(s@, pos as int) == (rule_models(r.0@), r.1 as int),
        pos <= r.1 <= s.len(),
{
    let mut rules: Vec<Rule> = Vec::new();
    let ghost mut done: Seq<RuleModel> = Seq::empty();
    let mut end = pos;
    proof {
        assert(rule_models(rules@) =~= done);
        assert(done + rules_from(s@, end as int).0 =~= rules_from(s@, end as int).0);
    }
    loop
        invariant
            pos <= end <= s.len(),
            rules_from(s@, pos as int) == (
                done + rules_from(s@, end as int).0,
                rules_from(s@, end as int).1,
            ),
            rule_models(rules@) == done,
        decreases s.len() - end,
    {
        let start = read_blanks(s, end);
        match read_css_rule(s, start) {
            Some((rule, after)) => {
                proof {
                    let rest = rules_from(s@, after as int).0;
                    assert(done + (seq![rule@] + rest) =~= done.push(rule@) + rest);
                    assert(rule_models(rules@.push(rule)) =~= done.push(rule@));
                    done = done.push(rule@);
                }
                rules.push(rule);
                end = after;
            },
            None => {
                proof {
                    assert(done + Seq::<RuleModel>::empty() =~= done);
                }
                return (rules, end);
            },
        }
    }
}

/// The sheet that `input` holds, or `None` where it is malformed.
pub fn rules(input: &str) -> (r: Option<Sheet>)
    ensures
        match r {
            Some(sheet) => sheet_of(input@) == Some(sheet@),
            None => sheet_of(input@) is None,
        },
{
    let s = chars_of(input);
    let (rules, end) = read_rules(&s, 0);
    if read_blanks(&s, end) == s.len() {
        Some(Sheet(rules))
    } else {
        None
    }
}

/// The selectors that `input` holds, in descending order of rank; `None`
/// unless selectors are all that it holds.
pub fn selectors(input: &str) -> (r: Option<Vec<Selector>>)
    ensures
        match r {
            Some(sels) => selectors_at(input@, 0) == Some(
                (selector_models(sels@), input@.len() as int),
            ),
            None => !(selectors_at(input@, 0) matches Some((_, end)) && end == input@.len()),
        },
{
    let s = chars_of(input);
    match read_selectors(&s, 0) {
        Some((sels, end)) => if end == s.len() {
            Some(sels)
        } else {
            None
        },
        None => None,
    }
}

/// The identifier that `input` holds; `None` unless an identifier is all
/// that it holds.
pub fn identifier(input: &str) -> (r: Option<String>)
    ensures
        match r {
            Some(word) => identifier_at(input@, 0) == Some((word@, input@.len() as int)),
            None => !(identifier_at(input@, 0) matches Some((_, end)) && end == input@.len()),
        },
{
    let s = chars_of(input);
    match read_identifier(&s, 0) {
        Some((word, end)) => if end == s.len() {
            Some(word)
        } else {
            None
        },
        None => None,
    }
}

/// The declarations of the block that `input` holds; `None` unless a
/// block is all that it holds.
pub fn declaration_block(input: &str) -> (r: Option<Vec<Declaration>>)
    ensures
        match r {
            Some(ds) => declaration_block_at(input@, 0) == Some(
                (declaration_models(ds@), input@.len() as int),
            ),
            None => !(declaration_block_at(input@, 0) matches Some((_, end)) && end
                == input@.len()),
        },
{
    let s = chars_of(input);
    match read_declaration_block(&s, 0) {
        Some((ds, end)) => if end == s.len() {
            Some(ds)
        } else {
            None
        },
        None => None,
    }
}

/// The declaration that `input` holds; `None` unless a declaration is
/// all that it holds.
pub fn declaration(input: &str) -> (r: Option<Declaration>)
    ensures
        match r {
            Some(d) => declaration_at(input@, 0) == Some((d@, input@.len() as int)),
            None => !(declaration_at(input@, 0) matches Some((_, end)) && end == input@.len()),
        },
{
    let s = chars_of(input);
    match read_declaration(&s, 0) {
        Some((d, end)) => if end == s.len() {
            Some(d)
        } else {
            None
        },
        None => None,
    }
}

/// The colour that `input` holds, as a value; `None` unless a colour is
/// all that it holds.
pub fn color_value(input: &str) -> (r: Option<Value>)
    ensures
        match r {
            Some(v) => v matches Value::ColorValue(c) && color_at(input@, 0) == Some(
                (c, input@.len() as int),
            ),
            None => !(color_at(input@, 0) matches Some((_, end)) && end == input@.len()),
        },
{
    let s = chars_of(input);
    match read_color(&s, 0) {
        Some((c, end)) => if end == s.len() {
            Some(Value::ColorValue(c))
        } else {
            None
        },
        None => None,
    }
}

/// The number that the hexadecimal digit `input` stands for; `None`
/// unless one such digit is all that it holds.
pub fn hex_value_one(input: &str) -> (r: Option<u8>)
    ensures
        match r {
            Some(v) => hex_value_one_at(input@, 0) == Some((v, 1int)) && input@.len() == 1,
            None => !(hex_value_one_at(input@, 0) is Some && input@.len() == 1),
        },
{
    let s = chars_of(input);
    match read_hex_value_one(&s, 0) {
        Some((v, end)) => if end == s.len() {
            Some(v)
        } else {
            None
        },
        None => None,
    }
}

/// The number that the two hexadecimal digits `input` stand for; `None`
/// unless two such digits are all that it holds.
pub fn hex_value_two(input: &str) -> (r: Option<u8>)
    ensures
        match r {
            Some(v) => hex_value_two_at(input@, 0) == Some((v, 2int)) && input@.len() == 2,
            None => !(hex_value_two_at(input@, 0) is Some && input@.len() == 2),
        },
{
    let s = chars_of(input);
    match read_hex_value_two(&s, 0) {
        Some((v, end)) => if end == s.len() {
            Some(v)
        } else {
            None
        },
        None => None,
    }
}

/// Whether a comment is all that `input` holds.
pub fn comment(input: &str) -> (r: Option<()>)
    ensures
        r is Some <==> comment_at(input@, 0) == Some(input@.len() as int),
{
    let s = chars_of(input);
    match read_comment(&s, 0) {
        Some(end) => if end == s.len() {
            Some(())
        } else {
            None
        },
        None => None,
    }
}

} // verus!
