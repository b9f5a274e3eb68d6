//! Style sheets: rules, selectors, declarations and values.
//!
//! Lengths are fixed-point numbers: a length is an integer count of
//! thousandths of a pixel, so `24px` is stored as `24_000`.

use vstd::prelude::*;

verus! {

/// Number of length units in one pixel.
pub const UNITS_PER_PX: i64 = 1000;

/// The length of `n` whole pixels.
pub fn px(n: i32) -> (v: i64)
    ensures
        v == n * UNITS_PER_PX,
{
    (n as i64) * UNITS_PER_PX
}

/// Comparison operator of an attribute predicate.
#[derive(Clone, Copy, Debug, PartialEq, Eq, Structural)]
pub enum AttrOp {
    Eq,
}

/// Unit of a length.
#[derive(Clone, Copy, Debug, PartialEq, Eq, Structural)]
pub enum Unit {
    Px,
}

/// An RGBA colour, one byte per channel.
#[derive(Clone, Copy, Debug, PartialEq, Eq, Structural, Default)]
pub struct Color {
    pub r: u8,
    pub g: u8,
    pub b: u8,
    pub a: u8,
}

/// The value of a declaration.
#[derive(Clone, Debug, PartialEq)]
pub enum Value {
    Keyword(String),
    Length(i64, Unit),
    ColorValue(Color),
}

/// The mathematical model of a value.
pub enum ValueModel {
    Keyword(Seq<char>),
    Length(i64, Unit),
    ColorValue(Color),
}

impl View for Value {
    type V = ValueModel;

    open spec fn view(&self) -> ValueModel {
        match self {
            Value::Keyword(s) => ValueModel::Keyword(s@),
            Value::Length(n, u) => ValueModel::Length(*n, *u),
            Value::ColorValue(c) => ValueModel::ColorValue(*c),
        }
    }
}

impl Value {
    /// The length in units that the value stands for: its own count for a
    /// pixel length, zero for everything else.
    pub open spec fn px_units(self) -> int {
        match self {
            Value::Length(n, Unit::Px) => n as int,
            _ => 0,
        }
    }

    /// Whether the value is the keyword spelled by `word`.
    pub open spec fn is_keyword(self, word: Seq<char>) -> bool {
        self matches Value::Keyword(s) && s@ == word
    }

    /// Whether the value is the keyword `auto`.
    pub open spec fn is_auto(self) -> bool {
        self.is_keyword("auto"@)
    }

    /// The length in units that the value stands for.
    pub fn to_px(&self) -> (n: i64)
        ensures
            n == self.px_units(),
    {
        match self {
            Value::Length(n, Unit::Px) => *n,
            _ => 0,
        }
    }

    /// A copy of the value.
    pub fn duplicate(&self) -> (v: Value)
        ensures
            v == *self,
    {
        match self {
            Value::Keyword(s) => Value::Keyword(s.clone()),
            Value::Length(n, u) => Value::Length(*n, *u),
            Value::ColorValue(c) => Value::ColorValue(*c),
        }
    }
}

/// A property name with its value.
#[derive(Clone, Debug, PartialEq)]
pub struct Declaration {
    pub name: String,
    pub value: Value,
}

/// The mathematical model of a declaration.
pub struct DeclarationModel {
    pub name: Seq<char>,
    pub value: ValueModel,
}

impl View for Declaration {
    type V = DeclarationModel;

    open spec fn view(&self) -> DeclarationModel {
        DeclarationModel { name: self.name@, value: self.value@ }
    }
}

/// The precedence of a selector: whether it names an id, how many classes
/// and attribute predicates it names, and whether it names a tag.
pub type Specificity = (usize, u128, usize);

/// Lexicographic "strictly less" on specificities.
pub open spec fn specificity_lt(a: Specificity, b: Specificity) -> bool {
    a.0 < b.0 || (a.0 == b.0 && (a.1 < b.1 || (a.1 == b.1 && a.2 < b.2)))
}

/// Lexicographic "less or equal" on specificities.
pub open spec fn specificity_le(a: Specificity, b: Specificity) -> bool {
    a == b || specificity_lt(a, b)
}

/// Whether `a` does not rank above `b`.
pub fn specificity_at_most(a: Specificity, b: Specificity) -> (r: bool)
    ensures
        r == specificity_le(a, b),
{
    if a.0 != b.0 {
        a.0 < b.0
    } else if a.1 != b.1 {
        a.1 < b.1
    } else {
        a.2 <= b.2
    }
}

/// A simple selector: every part that is present must hold of an element.
#[derive(Clone, Debug, PartialEq)]
pub struct Selector {
    pub tag: Option<String>,
    pub class: Vec<String>,
    pub id: Option<String>,
    pub attr: Vec<(String, AttrOp, String)>,
}

/// The mathematical model of a selector.
pub struct SelectorModel {
    pub tag: Option<Seq<char>>,
    pub class: Seq<Seq<char>>,
    pub id: Option<Seq<char>>,
    pub attr: Seq<(Seq<char>, AttrOp, Seq<char>)>,
}

/// The model of an optional string.
pub open spec fn opt_chars(o: Option<String>) -> Option<Seq<char>> {
    match o {
        Some(s) => Some(s@),
        None => None,
    }
}

/// The models of strings.
pub open spec fn names(v: Seq<String>) -> Seq<Seq<char>> {
    Seq::new(v.len(), |i: int| v[i]@)
}

/// The models of attribute predicates.
pub open spec fn predicates(v: Seq<(String, AttrOp, String)>) -> Seq<(Seq<char>, AttrOp, Seq<char>)> {
    Seq::new(v.len(), |i: int| (v[i].0@, v[i].1, v[i].2@))
}

impl View for Selector {
    type V = SelectorModel;

    open spec fn view(&self) -> SelectorModel {
        SelectorModel {
            tag: opt_chars(self.tag),
            class: names(self.class@),
            id: opt_chars(self.id),
            attr: predicates(self.attr@),
        }
    }
}

impl SelectorModel {
    /// The specificity of the selector over the integers.
    pub open spec fn rank(self) -> (int, int, int) {
        (
            if self.id is Some { 1int } else { 0int },
            (self.class.len() + self.attr.len()) as int,
            if self.tag is Some { 1int } else { 0int },
        )
    }
}

impl Selector {
    /// The selector's specificity as a mathematical triple.
    pub open spec fn specificity(self) -> Specificity {
        (
            if self.id is Some { 1usize } else { 0usize },
            (self.class.len() + self.attr.len()) as u128,
            if self.tag is Some { 1usize } else { 0usize },
        )
    }

    /// The selector with the tag `tag_name` in place of the one it had.
    pub fn add_tag(self, tag_name: &str) -> (r: Self)
        ensures
            r.tag matches Some(t) && t@ == tag_name@,
            r.class == self.class,
            r.id == self.id,
            r.attr == self.attr,
    {
        let mut s = self;
        s.tag = Some(tag_name.to_owned());
        s
    }

    /// The selector with one more class.
    pub fn add_class(self, class_name: &str) -> (r: Self)
        ensures
            r.class@.len() == self.class@.len() + 1,
            r.class@.drop_last() == self.class@,
            r.class@.last()@ == class_name@,
            r.tag == self.tag,
            r.id == self.id,
            r.attr == self.attr,
    {
        let mut s = self;
        s.class.push(class_name.to_owned());
        s
    }

    /// The selector with the id `id_name` in place of the one it had.
    pub fn add_id(self, id_name: &str) -> (r: Self)
        ensures
            r.id matches Some(i) && i@ == id_name@,
            r.tag == self.tag,
            r.class == self.class,
            r.attr == self.attr,
    {
        let mut s = self;
        s.id = Some(id_name.to_owned());
        s
    }

    /// The selector with one more attribute predicate.
    pub fn add_attr(self, attr_name: &str, attr_op: AttrOp, attr_value: &str) -> (r: Self)
        ensures
            r.attr@.len() == self.attr@.len() + 1,
            r.attr@.drop_last() == self.attr@,
            r.attr@.last().0@ == attr_name@,
            r.attr@.last().1 == attr_op,
            r.attr@.last().2@ == attr_value@,
            r.tag == self.tag,
            r.class == self.class,
            r.id == self.id,
    {
        let mut s = self;
        s.attr.push((attr_name.to_owned(), attr_op, attr_value.to_owned()));
        s
    }

    /// The selector's specificity.
    pub fn get_specificity(&self) -> (s: Specificity)
        ensures
            s == self.specificity(),
    {
        let a: usize = if self.id.is_some() { 1 } else { 0 };
        let b: u128 = self.class.len() as u128 + self.attr.len() as u128;
        let c: usize = if self.tag.is_some() { 1 } else { 0 };
        (a, b, c)
    }
}

/// A selector with an id outranks every selector without one, whatever
/// classes, attribute predicates and tags either names.
pub proof fn lemma_id_outranks(a: Selector, b: Selector)
    requires
        a.id is Some,
        b.id is None,
    ensures
        specificity_lt(b.specificity(), a.specificity()),
{
}

/// Of two selectors without ids, the one that names more classes and
/// attribute predicates outranks the other, whatever tags they name.
pub proof fn lemma_classes_outrank_tags(a: Selector, b: Selector)
    requires
        a.id is None,
        b.id is None,
        a.class.len() + a.attr.len() > b.class.len() + b.attr.len(),
    ensures
        specificity_lt(b.specificity(), a.specificity()),
{
}

/// Specificities are totally ordered: of two, one is at most the other, and
/// two that are each at most the other are equal.
pub proof fn lemma_specificity_total(a: Specificity, b: Specificity, c: Specificity)
    ensures
        specificity_le(a, b) || specificity_le(b, a),
        specificity_le(a, b) && specificity_le(b, a) ==> a == b,
        specificity_le(a, b) && specificity_le(b, c) ==> specificity_le(a, c),
{
}

/// Selectors that share declarations.
#[derive(Clone, Debug, PartialEq)]
pub struct Rule {
    pub selectors: Vec<Selector>,
    pub declarations: Vec<Declaration>,
}

/// The mathematical model of a rule.
pub struct RuleModel {
    pub selectors: Seq<SelectorModel>,
    pub declarations: Seq<DeclarationModel>,
}

/// The models of selectors.
pub open spec fn selector_models(v: Seq<Selector>) -> Seq<SelectorModel> {
    Seq::new(v.len(), |i: int| v[i]@)
}

/// The models of declarations.
pub open spec fn declaration_models(v: Seq<Declaration>) -> Seq<DeclarationModel> {
    Seq::new(v.len(), |i: int| v[i]@)
}

/// The models of rules.
pub open spec fn rule_models(v: Seq<Rule>) -> Seq<RuleModel> {
    Seq::new(v.len(), |i: int| v[i]@)
}

impl View for Rule {
    type V = RuleModel;

    open spec fn view(&self) -> RuleModel {
        RuleModel {
            selectors: selector_models(self.selectors@),
            declarations: declaration_models(self.declarations@),
        }
    }
}

impl View for Sheet {
    type V = Seq<RuleModel>;

    open spec fn view(&self) -> Seq<RuleModel> {
        rule_models(self.0@)
    }
}

impl Rule {
    /// The rule with one more selector.
    pub fn add_selector(self, selector: Selector) -> (r: Self)
        ensures
            r.selectors@ == self.selectors@.push(selector),
            r.declarations == self.declarations,
    {
        let mut r = self;
        r.selectors.push(selector);
        r
    }

    /// The rule with one more declaration.
    pub fn add_declaration(self, name: &str, value: Value) -> (r: Self)
        ensures
            r.declarations@.len() == self.declarations@.len() + 1,
            r.declarations@.drop_last() == self.declarations@,
            r.declarations@.last().name@ == name@,
            r.declarations@.last().value == value,
            r.selectors == self.selectors,
    {
        let mut r = self;
        r.declarations.push(Declaration { name: name.to_owned(), value });
        r
    }
}

/// An ordered list of rules.
#[derive(Clone, Debug, PartialEq)]
pub struct Sheet(pub Vec<Rule>);

impl Sheet {
    /// The sheet with one more rule.
    pub fn add_rule(self, rule: Rule) -> (r: Self)
        ensures
            r.0@ == self.0@.push(rule),
    {
        let mut s = self;
        s.0.push(rule);
        s
    }
}

/// The empty sheet.
pub fn sheet() -> (s: Sheet)
    ensures
        s.0@.len() == 0,
{
    Sheet(Vec::new())
}

/// The rule without selectors and declarations.
pub fn rule() -> (r: Rule)
    ensures
        r.selectors@.len() == 0,
        r.declarations@.len() == 0,
{
    Rule { selectors: Vec::new(), declarations: Vec::new() }
}

/// The selector that names nothing.
pub fn selector() -> (s: Selector)
    ensures
        s.tag is None,
        s.id is None,
        s.class@.len() == 0,
        s.attr@.len() == 0,
{
    Selector { tag: None, class: Vec::new(), id: None, attr: Vec::new() }
}

} // verus!
