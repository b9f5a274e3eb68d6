//! Styled trees written out as markup, each element with its declarations
//! in a `style` attribute.

use vstd::prelude::*;
use vstd::string::StringExecFns;
use crate::css::{ValueModel};
use crate::css_text::value_text;
use crate::dom::{Node, Tree, attrs_markup, pairs};
use crate::style::{PropertyMap, StyledNode};
use crate::text::{chars_of, push_char};

verus! {

/// Whether `a` comes before `b` in the order of dictionaries: at the
/// first place where they differ `a` has the lower character, or `a` ends
/// there and `b` goes on.
pub open spec fn chars_lt(a: Seq<char>, b: Seq<char>) -> bool
    decreases a.len(),
{
    if b.len() == 0 {
        false
    } else if a.len() == 0 {
        true
    } else if a[0] != b[0] {
        a[0] < b[0]
    } else {
        chars_lt(a.drop_first(), b.drop_first())
    }
}

/// `sorted` with `x` put in behind the last name that does not come
/// behind the name of `x`, where `sorted` is in ascending order of names.
pub open spec fn placed_by_name(
    sorted: Seq<(Seq<char>, ValueModel)>,
    x: (Seq<char>, ValueModel),
) -> Seq<(Seq<char>, ValueModel)>
    decreases sorted.len(),
{
    if sorted.len() > 0 && chars_lt(x.0, sorted.last().0) {
        placed_by_name(sorted.drop_last(), x).push(sorted.last())
    } else {
        sorted.push(x)
    }
}

/// `entries` in ascending order of names.
pub open spec fn by_name(entries: Seq<(Seq<char>, ValueModel)>) -> Seq<(Seq<char>, ValueModel)>
    decreases entries.len(),
{
    if entries.len() == 0 {
        Seq::empty()
    } else {
        placed_by_name(by_name(entries.drop_last()), entries.last())
    }
}

/// Whether `entries` are in ascending order of names: no entry has a name
/// that comes before the name of an entry before it.
pub open spec fn ascending(entries: Seq<(Seq<char>, ValueModel)>) -> bool {
    forall|i: int, j: int|
        0 <= i < j < entries.len() ==> !chars_lt((#[trigger] entries[j]).0, (#[trigger] entries[i]).0)
}

/// The order of dictionaries is an order: what comes before something
/// comes before all that does not come before that thing, and not behind it.
pub proof fn lemma_chars_order(a: Seq<char>, b: Seq<char>, c: Seq<char>)
    requires
        chars_lt(a, b),
    ensures
        !chars_lt(b, a),
        !chars_lt(c, b) ==> chars_lt(a, c),
    decreases a.len(),
{
    if a.len() > 0 && a[0] == b[0] {
        if c.len() > 0 {
            lemma_chars_order(a.drop_first(), b.drop_first(), c.drop_first());
        } else {
            lemma_chars_order(a.drop_first(), b.drop_first(), c);
        }
    }
}

/// Placing an entry keeps the order and adds that entry, once.
pub proof fn lemma_placed_by_name_keeps_order(
    sorted: Seq<(Seq<char>, ValueModel)>,
    x: (Seq<char>, ValueModel),
)
    requires
        ascending(sorted),
    ensures
        ascending(placed_by_name(sorted, x)),
        placed_by_name(sorted, x).to_multiset() == sorted.to_multiset().insert(x),
    decreases sorted.len(),
{
    broadcast use vstd::seq_lib::group_to_multiset_ensures;

    let placed = placed_by_name(sorted, x);
    if sorted.len() > 0 && chars_lt(x.0, sorted.last().0) {
        let front = sorted.drop_last();
        let inner = placed_by_name(front, x);
        assert forall|i: int, j: int| 0 <= i < j < front.len() implies !chars_lt(
            (#[trigger] front[j]).0,
            (#[trigger] front[i]).0,
        ) by {
            assert(front[i] == sorted[i] && front[j] == sorted[j]);
        }
        lemma_placed_by_name_keeps_order(front, x);
        assert(placed == inner.push(sorted.last()));
        assert(sorted =~= front.push(sorted.last()));
        assert forall|i: int, j: int| 0 <= i < j < placed.len() implies !chars_lt(
            (#[trigger] placed[j]).0,
            (#[trigger] placed[i]).0,
        ) by {
            if j < placed.len() - 1 {
                assert(placed[i] == inner[i] && placed[j] == inner[j]);
            } else {
                assert(placed[i] == inner[i]);
                assert(placed[j] == sorted.last());
                assert(inner.to_multiset().count(inner[i]) > 0);
                if inner[i] != x {
                    assert(front.to_multiset().count(inner[i]) > 0);
                    let k = choose|k: int| 0 <= k < front.len() && front[k] == inner[i];
                    assert(sorted[k] == inner[i]);
                    assert(sorted[sorted.len() - 1] == sorted.last());
                } else {
                    lemma_chars_order(x.0, sorted.last().0, x.0);
                }
            }
        }
        assert(placed.to_multiset() =~= sorted.to_multiset().insert(x));
    } else {
        assert(placed == sorted.push(x));
        assert forall|i: int, j: int| 0 <= i < j < placed.len() implies !chars_lt(
            (#[trigger] placed[j]).0,
            (#[trigger] placed[i]).0,
        ) by {
            if j < placed.len() - 1 {
                assert(placed[i] == sorted[i] && placed[j] == sorted[j]);
            } else {
                assert(placed[i] == sorted[i]);
                assert(placed[j] == x);
                assert(sorted[sorted.len() - 1] == sorted.last());
                if chars_lt(x.0, sorted[i].0) {
                    if i < sorted.len() - 1 {
                        assert(!chars_lt(sorted[sorted.len() - 1].0, sorted[i].0));
                    }
                    lemma_chars_order(x.0, sorted[i].0, sorted.last().0);
                }
            }
        }
    }
}

/// Entries are written in ascending order of their names: sorting puts
/// the same entries, each as often as it occurs, in that order.
pub proof fn lemma_by_name(entries: Seq<(Seq<char>, ValueModel)>)
    ensures
        ascending(by_name(entries)),
        by_name(entries).to_multiset() == entries.to_multiset(),
        by_name(entries).len() == entries.len(),
    decreases entries.len(),
{
    broadcast use vstd::seq_lib::group_to_multiset_ensures;

    if entries.len() > 0 {
        lemma_by_name(entries.drop_last());
        lemma_placed_by_name_keeps_order(by_name(entries.drop_last()), entries.last());
        assert(entries =~= entries.drop_last().push(entries.last()));
        assert(by_name(entries).to_multiset() =~= entries.to_multiset());
    } else {
        assert(by_name(entries) =~= entries);
    }
    by_name(entries).to_multiset_ensures();
    entries.to_multiset_ensures();
}

/// The first `n` of `entries` as declarations, each as `name:value;`.
pub open spec fn style_text(entries: Seq<(Seq<char>, ValueModel)>, n: nat) -> Seq<char>
    decreases n,
{
    if n == 0 || n > entries.len() {
        Seq::empty()
    } else {
        style_text(entries, (n - 1) as nat) + entries[n - 1].0 + seq![':'] + value_text(entries[n - 1].1)
            + seq![';']
    }
}

/// The start tag of an element with tag `tag`, attributes `attrs` and
/// declarations `style`.
pub open spec fn start_tag(
    tag: Seq<char>,
    attrs: Seq<(Seq<char>, Seq<char>)>,
    style: Seq<(Seq<char>, ValueModel)>,
) -> Seq<char> {
    seq!['<'] + tag + attrs_markup(attrs, attrs.len()) + seq![' ', 's', 't', 'y', 'l', 'e', '=', '"']
        + style_text(style, style.len()) + seq!['"', '>']
}

/// The end tag of an element with tag `tag`.
pub open spec fn end_tag(tag: Seq<char>) -> Seq<char> {
    seq!['<', '/'] + tag + seq!['>']
}

/// The markup of the first `n` children of `s`.
pub open spec fn styled_upto(s: StyledNode, n: nat) -> Seq<char>
    decreases s, n,
{
    if n == 0 || n > s.children.len() {
        Seq::empty()
    } else {
        styled_upto(s, (n - 1) as nat) + styled_markup(s.children[n - 1])
    }
}

/// The styled node as markup: a text node as its text, an element as its
/// start tag with its attributes and a `style` attribute that lists its
/// declarations in ascending order of names, its children, and its end
/// tag.
pub open spec fn styled_markup(s: StyledNode) -> Seq<char>
    decreases s, s.children.len() + 1,
{
    match s.node@ {
        Tree::Element { tag, attrs, .. } => {
            let style = by_name(s.specified_values.listing());
            start_tag(tag, attrs, style) + styled_upto(s, s.children.len() as nat) + end_tag(tag)
        },
        Tree::Text(t) => t,
    }
}

/// Whether `a` comes before `b` in the order of dictionaries.
fn comes_before(a: &Vec<char>, b: &Vec<char>) -> (r: bool)
    ensures
        r == chars_lt(a@, b@),
{
    let mut i: usize = 0;
    proof {
        assert(a@.skip(0) =~= a@);
        assert(b@.skip(0) =~= b@);
    }
    while i < a.len() && i < b.len() && a[i] == b[i]
        invariant
            i <= a.len(),
            i <= b.len(),
            chars_lt(a@, b@) == chars_lt(a@.skip(i as int), b@.skip(i as int)),
        decreases a.len() - i,
    {
        proof {
            assert(a@.skip(i as int).drop_first() =~= a@.skip(i + 1));
            assert(b@.skip(i as int).drop_first() =~= b@.skip(i + 1));
        }
        i += 1;
    }
    if i >= b.len() {
        false
    } else if i >= a.len() {
        true
    } else {
        a[i] < b[i]
    }
}

/// Placing `x` leaves alone the entries before the first whose name
/// comes behind that of `x` with all behind it.
proof fn lemma_placed_by_name(m: Seq<(Seq<char>, ValueModel)>, x: (Seq<char>, ValueModel), i: int)
    requires
        0 <= i <= m.len(),
        forall|j: int| i <= j < m.len() ==> chars_lt(x.0, #[trigger] m[j].0),
        i > 0 ==> !chars_lt(x.0, m[i - 1].0),
    ensures
        placed_by_name(m, x) == m.insert(i, x),
    decreases m.len() - i,
{
    if i < m.len() {
        lemma_placed_by_name(m.drop_last(), x, i);
        assert(m.drop_last().insert(i, x).push(m.last()) =~= m.insert(i, x));
    } else {
        assert(m.push(x) =~= m.insert(i, x));
    }
}

impl PropertyMap {
    /// The declarations as text, each as `name:value;`, in ascending order
    /// of names.
    pub fn to_string(&self) -> (r: String)
        ensures
            r@ == style_text(by_name(self.listing()), by_name(self.listing()).len()),
    {
        let n = self.len();
        let ghost all = self.listing();
        // The positions of the entries, in ascending order of their names.
        let mut order: Vec<usize> = Vec::new();
        let mut keys: Vec<Vec<char>> = Vec::new();
        let mut i: usize = 0;
        assert(all.take(0) =~= Seq::empty());
        while i < n
            invariant
                i <= n,
                n == all.len(),
                all == self.listing(),
                order.len() == keys.len(),
                order.len() == i,
                forall|j: int| 0 <= j < order.len() ==> (#[trigger] order[j]) < i,
                forall|j: int| 0 <= j < order.len() ==> (#[trigger] keys[j])@ == all[order[j] as int].0,
                Seq::new(order.len() as nat, |j: int| all[order[j] as int]) == by_name(
                    all.take(i as int),
                ),
            decreases n - i,
        {
            let key = chars_of(self.name_at(i));
            let ghost sorted = Seq::new(order.len() as nat, |j: int| all[order[j] as int]);
            let ghost x = all[i as int];
            let mut at = order.len();
            while at > 0 && comes_before(&key, &keys[at - 1])
                invariant
                    at <= order.len(),
                    order.len() == keys.len(),
                    key@ == x.0,
                    sorted == Seq::new(order.len() as nat, |j: int| all[order[j] as int]),
                    forall|j: int|
                        0 <= j < order.len() ==> (#[trigger] keys[j])@ == all[order[j] as int].0,
                    forall|j: int| at <= j < sorted.len() ==> chars_lt(x.0, #[trigger] sorted[j].0),
                decreases at,
            {
                at -= 1;
            }
            proof {
                lemma_placed_by_name(sorted, x, at as int);
                assert(all.take(i + 1).drop_last() =~= all.take(i as int));
                assert(all.take(i + 1).last() == x);
            }
            order.insert(at, i);
            keys.insert(at, key);
            proof {
                assert(Seq::new(order.len() as nat, |j: int| all[order[j] as int]) =~= sorted.insert(
                    at as int,
                    x,
                ));
            }
            i += 1;
        }
        proof {
            assert(all.take(n as int) =~= all);
        }
        let ghost sorted = by_name(all);
        let mut out = String::new();
        let mut k: usize = 0;
        while k < order.len()
            invariant
                k <= order.len(),
                all == self.listing(),
                n == all.len(),
                forall|j: int| 0 <= j < order.len() ==> (#[trigger] order[j]) < n,
                sorted == Seq::new(order.len() as nat, |j: int| all[order[j] as int]),
                out@ == style_text(sorted, k as nat),
            decreases order.len() - k,
        {
            let ghost before = out@;
            out.append(self.name_at(order[k]));
            push_char(&mut out, ':');
            self.value_at(order[k]).write(&mut out);
            push_char(&mut out, ';');
            proof {
                let e = sorted[k as int];
                assert(out@ =~= before + e.0 + seq![':'] + value_text(e.1) + seq![';']);
            }
            k += 1;
        }
        out
    }
}

/// Appends the start tag of `node` with the declarations `style`.
fn write_start_tag(tag: &String, attrs: &Vec<(String, String)>, style: &PropertyMap, out: &mut String)
    ensures
        final(out)@ == old(out)@ + start_tag(tag@, pairs(attrs@), by_name(style.listing())),
{
    let ghost start = out@;
    let ghost ps = pairs(attrs@);
    push_char(out, '<');
    out.append(tag.as_str());
    let mut i: usize = 0;
    while i < attrs.len()
        invariant
            i <= attrs.len(),
            ps == pairs(attrs@),
            out@ == start + seq!['<'] + tag@ + attrs_markup(ps, i as nat),
        decreases attrs.len() - i,
    {
        let ghost before = out@;
        push_char(out, ' ');
        out.append(attrs[i].0.as_str());
        push_char(out, '=');
        push_char(out, '"');
        out.append(attrs[i].1.as_str());
        push_char(out, '"');
        proof {
            assert(out@ =~= before + (seq![' '] + ps[i as int].0 + seq!['=', '"'] + ps[i as int].1 + seq![
                '"',
            ]));
            assert(attrs_markup(ps, (i + 1) as nat) =~= attrs_markup(ps, i as nat) + (seq![' '] + ps[i as int].0
                + seq!['=', '"'] + ps[i as int].1 + seq!['"']));
        }
        i += 1;
    }
    let ghost named = out@;
    push_char(out, ' ');
    push_char(out, 's');
    push_char(out, 't');
    push_char(out, 'y');
    push_char(out, 'l');
    push_char(out, 'e');
    push_char(out, '=');
    push_char(out, '"');
    let ghost opened = out@;
    assert(opened =~= named + seq![' ', 's', 't', 'y', 'l', 'e', '=', '"']);
    let text = style.to_string();
    out.append(text.as_str());
    push_char(out, '"');
    push_char(out, '>');
    proof {
        let listed = by_name(style.listing());
        assert(out@ =~= opened + style_text(listed, listed.len()) + seq!['"', '>']);
        assert(out@ =~= start + start_tag(tag@, ps, listed));
    }
}

/// Appends the end tag of an element with tag `tag`.
fn write_end_tag(tag: &String, out: &mut String)
    ensures
        final(out)@ == old(out)@ + end_tag(tag@),
{
    let ghost start = out@;
    push_char(out, '<');
    push_char(out, '/');
    out.append(tag.as_str());
    push_char(out, '>');
    assert(out@ =~= start + end_tag(tag@));
}

impl<'a> StyledNode<'a> {
    /// Appends the styled node as markup to `out`.
    fn write_markup(&self, out: &mut String)
        ensures
            final(out)@ == old(out)@ + styled_markup(*self),
        decreases self,
    {
        let ghost start = out@;
        match self.node {
            Node::Element { tag, attrs, .. } => {
                write_start_tag(tag, attrs, &self.specified_values, out);
                let ghost open = out@;
                let mut k: usize = 0;
                while k < self.children.len()
                    invariant
                        k <= self.children.len(),
                        out@ == open + styled_upto(*self, k as nat),
                    decreases self.children.len() - k,
                {
                    self.children[k].write_markup(out);
                    proof {
                        assert(out@ =~= open + (styled_upto(*self, k as nat) + styled_markup(
                            self.children[k as int],
                        )));
                    }
                    k += 1;
                }
                write_end_tag(tag, out);
                proof {
                    let head = start_tag(tag@, pairs(attrs@), by_name(self.specified_values.listing()));
                    let body = styled_upto(*self, self.children.len() as nat);
                    assert(styled_markup(*self) == head + body + end_tag(tag@));
                    assert(out@ =~= start + (head + body + end_tag(tag@)));
                }
            },
            Node::Text(t) => {
                out.append(t.as_str());
            },
        }
    }

    /// The styled node as markup.
    pub fn to_string(&self) -> (r: String)
        ensures
            r@ == styled_markup(*self),
    {
        let mut out = String::new();
        self.write_markup(&mut out);
        proof {
            assert(Seq::<char>::empty() + styled_markup(*self) =~= styled_markup(*self));
        }
        out
    }
}

} // verus!
