//! Style sheets written out as text.

use vstd::prelude::*;
use vstd::string::StringExecFns;
use crate::css::{
    AttrOp, Color, Declaration, DeclarationModel, Rule, RuleModel, Selector, SelectorModel, Sheet,
    Unit, Value, ValueModel, predicates,
};
use crate::text::push_char;

verus! {

/// The character of the decimal digit `d`.
pub open spec fn digit_char(d: int) -> char {
    if d == 0 {
        '0'
    } else if d == 1 {
        '1'
    } else if d == 2 {
        '2'
    } else if d == 3 {
        '3'
    } else if d == 4 {
        '4'
    } else if d == 5 {
        '5'
    } else if d == 6 {
        '6'
    } else if d == 7 {
        '7'
    } else if d == 8 {
        '8'
    } else {
        '9'
    }
}

/// The number `n` in decimal, without leading zeros.
pub open spec fn decimal(n: nat) -> Seq<char>
    decreases n,
{
    if n < 10 {
        seq![digit_char(n as int)]
    } else {
        decimal(n / 10).push(digit_char((n % 10) as int))
    }
}

/// The thousandths `f`, from 1 to 999, as the digits behind a decimal
/// point, without trailing zeros.
pub open spec fn fraction_text(f: int) -> Seq<char> {
    if f % 100 == 0 {
        seq![digit_char(f / 100)]
    } else if f % 10 == 0 {
        seq![digit_char(f / 100), digit_char(f / 10 % 10)]
    } else {
        seq![digit_char(f / 100), digit_char(f / 10 % 10), digit_char(f % 10)]
    }
}

/// The length `n`, in thousandths of a pixel, as a decimal number of
/// pixels.
pub open spec fn length_text(n: int) -> Seq<char> {
    let magnitude = if n < 0 {
        -n
    } else {
        n
    };
    (if n < 0 {
        seq!['-']
    } else {
        Seq::empty()
    }) + decimal((magnitude / 1000) as nat) + (if magnitude % 1000 != 0 {
        seq!['.'] + fraction_text(magnitude % 1000)
    } else {
        Seq::empty()
    })
}

/// The operator as text.
pub open spec fn op_text(op: AttrOp) -> Seq<char> {
    seq!['=']
}

/// The unit as text.
pub open spec fn unit_text(u: Unit) -> Seq<char> {
    seq!['p', 'x']
}

/// The colour as `rgba(r,g,b,a)`.
pub open spec fn color_text(c: Color) -> Seq<char> {
    seq!['r', 'g', 'b', 'a', '('] + decimal(c.r as nat) + seq![','] + decimal(c.g as nat) + seq![
        ',',
    ] + decimal(c.b as nat) + seq![','] + decimal(c.a as nat) + seq![')']
}

/// The value as text: a keyword as it is, a length as its number and
/// unit, a colour as `rgba(r,g,b,a)`.
pub open spec fn value_text(v: ValueModel) -> Seq<char> {
    match v {
        ValueModel::Keyword(s) => s,
        ValueModel::Length(n, u) => length_text(n as int) + unit_text(u),
        ValueModel::ColorValue(c) => color_text(c),
    }
}

/// The declaration as `name:value`.
pub open spec fn declaration_text(d: DeclarationModel) -> Seq<char> {
    d.name + seq![':'] + value_text(d.value)
}

/// The first `n` classes, each behind a `.`.
pub open spec fn classes_text(classes: Seq<Seq<char>>, n: nat) -> Seq<char>
    decreases n,
{
    if n == 0 || n > classes.len() {
        Seq::empty()
    } else {
        classes_text(classes, (n - 1) as nat) + seq!['.'] + classes[n - 1]
    }
}

/// The first `n` attribute predicates, each as `[name="value"]`.
pub open spec fn predicates_text(attrs: Seq<(Seq<char>, AttrOp, Seq<char>)>, n: nat) -> Seq<char>
    decreases n,
{
    if n == 0 || n > attrs.len() {
        Seq::empty()
    } else {
        predicates_text(attrs, (n - 1) as nat) + seq!['['] + attrs[n - 1].0 + op_text(attrs[n - 1].1)
            + seq!['"'] + attrs[n - 1].2 + seq!['"', ']']
    }
}

/// The selector as text: the tag, the classes, the id, the attribute
/// predicates.
pub open spec fn selector_text(s: SelectorModel) -> Seq<char> {
    (match s.tag {
        Some(t) => t,
        None => Seq::empty(),
    }) + classes_text(s.class, s.class.len()) + (match s.id {
        Some(i) => seq!['#'] + i,
        None => Seq::empty(),
    }) + predicates_text(s.attr, s.attr.len())
}

/// The first `n` selectors with commas between them.
pub open spec fn selectors_text(selectors: Seq<SelectorModel>, n: nat) -> Seq<char>
    decreases n,
{
    if n == 0 || n > selectors.len() {
        Seq::empty()
    } else if n == 1 {
        selector_text(selectors[0])
    } else {
        selectors_text(selectors, (n - 1) as nat) + seq![','] + selector_text(selectors[n - 1])
    }
}

/// The first `n` declarations with semicolons between them.
pub open spec fn declarations_text(declarations: Seq<DeclarationModel>, n: nat) -> Seq<char>
    decreases n,
{
    if n == 0 || n > declarations.len() {
        Seq::empty()
    } else if n == 1 {
        declaration_text(declarations[0])
    } else {
        declarations_text(declarations, (n - 1) as nat) + seq![';'] + declaration_text(
            declarations[n - 1],
        )
    }
}

/// The rule as its selectors and, in braces, its declarations.
pub open spec fn rule_text(r: RuleModel) -> Seq<char> {
    selectors_text(r.selectors, r.selectors.len()) + seq!['{'] + declarations_text(
        r.declarations,
        r.declarations.len(),
    ) + seq!['}']
}

/// The first `n` rules, one after the other.
pub open spec fn rules_text(rules: Seq<RuleModel>, n: nat) -> Seq<char>
    decreases n,
{
    if n == 0 || n > rules.len() {
        Seq::empty()
    } else {
        rules_text(rules, (n - 1) as nat) + rule_text(rules[n - 1])
    }
}

/// The character of the decimal digit `d`.
fn digit_of(d: u64) -> (c: char)
    requires
        d < 10,
    ensures
        c == digit_char(d as int),
{
    if d == 0 {
        '0'
    } else if d == 1 {
        '1'
    } else if d == 2 {
        '2'
    } else if d == 3 {
        '3'
    } else if d == 4 {
        '4'
    } else if d == 5 {
        '5'
    } else if d == 6 {
        '6'
    } else if d == 7 {
        '7'
    } else if d == 8 {
        '8'
    } else {
        '9'
    }
}

/// Appends `n` in decimal to `out`.
fn write_decimal(out: &mut String, n: u64)
    ensures
        final(out)@ == old(out)@ + decimal(n as nat),
    decreases n,
{
    if n >= 10 {
        write_decimal(out, n / 10);
    }
    push_char(out, digit_of(n % 10));
    proof {
        if n >= 10 {
            assert(out@ =~= old(out)@ + decimal((n / 10) as nat).push(digit_char((n % 10) as int)));
        } else {
            assert(out@ =~= old(out)@ + seq![digit_char(n as int)]);
        }
    }
}

/// Appends the length `n` as a decimal number of pixels to `out`.
fn write_length(out: &mut String, n: i64)
    ensures
        final(out)@ == old(out)@ + length_text(n as int),
{
    let ghost start = out@;
    let magnitude: u64 = if n < 0 {
        (-(n as i128)) as u64
    } else {
        n as u64
    };
    if n < 0 {
        push_char(out, '-');
    }
    let ghost sign = out@;
    write_decimal(out, magnitude / 1000);
    let f = magnitude % 1000;
    if f != 0 {
        push_char(out, '.');
        push_char(out, digit_of(f / 100));
        if f % 100 != 0 {
            push_char(out, digit_of(f / 10 % 10));
            if f % 10 != 0 {
                push_char(out, digit_of(f % 10));
            }
        }
        proof {
            assert(out@ =~= sign + decimal((magnitude / 1000) as nat) + (seq!['.'] + fraction_text(
                f as int,
            )));
        }
    }
    proof {
        if n < 0 {
            assert(sign =~= start + seq!['-']);
        } else {
            assert(sign =~= start + Seq::<char>::empty());
        }
        assert(out@ =~= start + length_text(n as int));
    }
}

impl AttrOp {
    /// The operator as text.
    pub fn to_string(&self) -> (r: String)
        ensures
            r@ == op_text(*self),
    {
        let mut out = String::new();
        push_char(&mut out, '=');
        out
    }
}

impl Unit {
    /// The unit as text.
    pub fn to_string(&self) -> (r: String)
        ensures
            r@ == unit_text(*self),
    {
        let mut out = String::new();
        push_char(&mut out, 'p');
        push_char(&mut out, 'x');
        out
    }
}

impl Value {
    /// Appends the value as text to `out`.
    pub fn write(&self, out: &mut String)
        ensures
            final(out)@ == old(out)@ + value_text(self@),
    {
        let ghost start = out@;
        match self {
            Value::Keyword(s) => {
                out.append(s.as_str());
            },
            Value::Length(n, u) => {
                write_length(out, *n);
                push_char(out, 'p');
                push_char(out, 'x');
                proof {
                    assert(out@ =~= start + (length_text(*n as int) + unit_text(*u)));
                }
            },
            Value::ColorValue(c) => {
                push_char(out, 'r');
                push_char(out, 'g');
                push_char(out, 'b');
                push_char(out, 'a');
                push_char(out, '(');
                write_decimal(out, c.r as u64);
                push_char(out, ',');
                write_decimal(out, c.g as u64);
                push_char(out, ',');
                write_decimal(out, c.b as u64);
                push_char(out, ',');
                write_decimal(out, c.a as u64);
                push_char(out, ')');
                proof {
                    assert(out@ =~= start + color_text(*c));
                }
            },
        }
    }

    /// The value as text.
    pub fn to_string(&self) -> (r: String)
        ensures
            r@ == value_text(self@),
    {
        let mut out = String::new();
        self.write(&mut out);
        proof {
            assert(Seq::<char>::empty() + value_text(self@) =~= value_text(self@));
        }
        out
    }
}

impl Declaration {
    /// Appends the declaration as text to `out`.
    fn write(&self, out: &mut String)
        ensures
            final(out)@ == old(out)@ + declaration_text(self@),
    {
        let ghost start = out@;
        out.append(self.name.as_str());
        push_char(out, ':');
        self.value.write(out);
        proof {
            assert(out@ =~= start + declaration_text(self@));
        }
    }

    /// The declaration as `name:value`.
    pub fn to_string(&self) -> (r: String)
        ensures
            r@ == declaration_text(self@),
    {
        let mut out = String::new();
        self.write(&mut out);
        proof {
            assert(Seq::<char>::empty() + declaration_text(self@) =~= declaration_text(self@));
        }
        out
    }
}

impl Selector {
    /// Appends the selector as text to `out`.
    fn write(&self, out: &mut String)
        ensures
            final(out)@ == old(out)@ + selector_text(self@),
    {
        let ghost start = out@;
        let ghost m = self@;
        match &self.tag {
            Some(tag_name) => {
                out.append(tag_name.as_str());
            },
            None => {},
        }
        let ghost tagged = out@;
        let mut i: usize = 0;
        while i < self.class.len()
            invariant
                i <= self.class.len(),
                m == self@,
                out@ == tagged + classes_text(m.class, i as nat),
            decreases self.class.len() - i,
        {
            let ghost before = out@;
            push_char(out, '.');
            out.append(self.class[i].as_str());
            proof {
                assert(out@ =~= tagged + (classes_text(m.class, i as nat) + seq!['.'] + m.class[i as int]));
            }
            i += 1;
        }
        let ghost classed = out@;
        match &self.id {
            Some(id_name) => {
                push_char(out, '#');
                out.append(id_name.as_str());
                proof {
                    assert(out@ =~= classed + (seq!['#'] + id_name@));
                }
            },
            None => {},
        }
        let ghost named = out@;
        let mut k: usize = 0;
        while k < self.attr.len()
            invariant
                k <= self.attr.len(),
                m == self@,
                out@ == named + predicates_text(m.attr, k as nat),
            decreases self.attr.len() - k,
        {
            let a = &self.attr[k];
            push_char(out, '[');
            out.append(a.0.as_str());
            push_char(out, '=');
            push_char(out, '"');
            out.append(a.2.as_str());
            push_char(out, '"');
            push_char(out, ']');
            proof {
                let t = m.attr[k as int];
                assert(out@ =~= named + (predicates_text(m.attr, k as nat) + seq!['['] + t.0 + op_text(t.1)
                    + seq!['"'] + t.2 + seq!['"', ']']));
            }
            k += 1;
        }
        proof {
            let tag_part = match m.tag {
                Some(t) => t,
                None => Seq::empty(),
            };
            let id_part = match m.id {
                Some(i) => seq!['#'] + i,
                None => Seq::empty(),
            };
            assert(tagged =~= start + tag_part);
            assert(named =~= classed + id_part);
            assert(out@ =~= start + selector_text(m));
        }
    }

    /// The selector as text.
    pub fn to_string(&self) -> (r: String)
        ensures
            r@ == selector_text(self@),
    {
        let mut out = String::new();
        self.write(&mut out);
        proof {
            assert(Seq::<char>::empty() + selector_text(self@) =~= selector_text(self@));
        }
        out
    }
}

impl Rule {
    /// Appends the rule as text to `out`.
    fn write(&self, out: &mut String)
        ensures
            final(out)@ == old(out)@ + rule_text(self@),
    {
        let ghost start = out@;
        let ghost m = self@;
        let mut i: usize = 0;
        while i < self.selectors.len()
            invariant
                i <= self.selectors.len(),
                m == self@,
                out@ == start + selectors_text(m.selectors, i as nat),
            decreases self.selectors.len() - i,
        {
            if i > 0 {
                push_char(out, ',');
            }
            self.selectors[i].write(out);
            proof {
                if i > 0 {
                    assert(out@ =~= start + (selectors_text(m.selectors, i as nat) + seq![',']
                        + selector_text(m.selectors[i as int])));
                } else {
                    assert(out@ =~= start + selector_text(m.selectors[0]));
                }
            }
            i += 1;
        }
        push_char(out, '{');
        let ghost open = out@;
        let mut k: usize = 0;
        while k < self.declarations.len()
            invariant
                k <= self.declarations.len(),
                m == self@,
                out@ == open + declarations_text(m.declarations, k as nat),
            decreases self.declarations.len() - k,
        {
            if k > 0 {
                push_char(out, ';');
            }
            self.declarations[k].write(out);
            proof {
                if k > 0 {
                    assert(out@ =~= open + (declarations_text(m.declarations, k as nat) + seq![';']
                        + declaration_text(m.declarations[k as int])));
                } else {
                    assert(out@ =~= open + declaration_text(m.declarations[0]));
                }
            }
            k += 1;
        }
        push_char(out, '}');
        proof {
            assert(out@ =~= start + rule_text(m));
        }
    }

    /// The rule as text.
    pub fn to_string(&self) -> (r: String)
        ensures
            r@ == rule_text(self@),
    {
        let mut out = String::new();
        self.write(&mut out);
        proof {
            assert(Seq::<char>::empty() + rule_text(self@) =~= rule_text(self@));
        }
        out
    }
}

impl Sheet {
    /// The sheet as text: its rules, one after the other.
    pub fn to_string(&self) -> (r: String)
        ensures
            r@ == rules_text(self@, self@.len()),
    {
        let mut out = String::new();
        let ghost m = self@;
        let mut i: usize = 0;
        while i < self.0.len()
            invariant
                i <= self.0.len(),
                m == self@,
                out@ == rules_text(m, i as nat),
            decreases self.0.len() - i,
        {
            self.0[i].write(&mut out);
            i += 1;
        }
        out
    }
}

} // verus!
