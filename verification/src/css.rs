//! The CSS model and parser: stylesheets, rules, simple selectors,
//! declarations and values, parsed from source text by a character cursor.

use crate::chars;
use crate::errors::ParseError;
use crate::px;
use vstd::prelude::*;

verus! {

/// A parsed stylesheet: its rules, in source order.
#[derive(Debug)]
pub struct StyleSheet {
    pub rules: Vec<Rule>,
}

/// One rule: a non-empty selector list and a declaration block.
#[derive(Debug, PartialEq)]
pub struct Rule {
    pub selectors: Vec<Selector>,
    pub declarations: Vec<Declaration>,
}

/// A selector; only simple selectors are supported.
#[derive(Debug, PartialEq, Eq)]
pub enum Selector {
    Simple(SimpleSelector),
}

/// A simple selector: optional tag name, optional id, class names.
#[derive(Debug, PartialEq, Eq)]
pub struct SimpleSelector {
    pub tag_name: Option<String>,
    pub id: Option<String>,
    pub class: Vec<String>,
}

/// One declaration: a property name and its value.
#[derive(Debug, PartialEq)]
pub struct Declaration {
    pub name: String,
    pub value: Value,
}

/// A property value: a keyword, a pixel length, or a color.
/// A length counts thousandths of a pixel.
#[derive(Debug, PartialEq)]
pub enum Value {
    Keyword(String),
    Length(i64, Unit),
    Color(Color),
}

/// Length units; pixels are the only one.
#[derive(Debug, PartialEq, Eq, Copy, Clone, Structural)]
pub enum Unit {
    Px,
}

/// An RGBA color with 8-bit channels.
#[derive(Debug, PartialEq, Eq, Copy, Clone, Structural)]
pub struct Color {
    pub r: u8,
    pub g: u8,
    pub b: u8,
    pub a: u8,
}

/// Selector strength: id count, class count, tag count, compared
/// lexicographically.
pub type Specificity = (usize, usize, usize);

/// Specification view of a value.
pub enum ValueV {
    Keyword(Seq<char>),
    Length(int, Unit),
    Color(Color),
}

/// Specification view of a declaration.
pub struct DeclarationV {
    pub name: Seq<char>,
    pub value: ValueV,
}

/// Specification view of a simple selector.
pub struct SimpleSelectorV {
    pub tag_name: Option<Seq<char>>,
    pub id: Option<Seq<char>>,
    pub class: Seq<Seq<char>>,
}

/// Specification view of a selector.
pub enum SelectorV {
    Simple(SimpleSelectorV),
}

/// Specification view of a rule.
pub struct RuleV {
    pub selectors: Seq<SelectorV>,
    pub declarations: Seq<DeclarationV>,
}

impl View for Value {
    type V = ValueV;

    open spec fn view(&self) -> ValueV {
        match self {
            Value::Keyword(s) => ValueV::Keyword(s@),
            Value::Length(v, u) => ValueV::Length(*v as int, *u),
            Value::Color(c) => ValueV::Color(*c),
        }
    }
}

impl DeepView for Value {
    type V = ValueV;

    open spec fn deep_view(&self) -> ValueV {
        self@
    }
}

impl View for Declaration {
    type V = DeclarationV;

    open spec fn view(&self) -> DeclarationV {
        DeclarationV { name: self.name@, value: self.value@ }
    }
}

impl DeepView for Declaration {
    type V = DeclarationV;

    open spec fn deep_view(&self) -> DeclarationV {
        self@
    }
}

impl View for SimpleSelector {
    type V = SimpleSelectorV;

    open spec fn view(&self) -> SimpleSelectorV {
        SimpleSelectorV {
            tag_name: match self.tag_name {
                Some(s) => Some(s@),
                None => None,
            },
            id: match self.id {
                Some(s) => Some(s@),
                None => None,
            },
            class: self.class.deep_view(),
        }
    }
}

impl View for Selector {
    type V = SelectorV;

    open spec fn view(&self) -> SelectorV {
        match self {
            Selector::Simple(s) => SelectorV::Simple(s@),
        }
    }
}

impl DeepView for Selector {
    type V = SelectorV;

    open spec fn deep_view(&self) -> SelectorV {
        self@
    }
}

impl View for Rule {
    type V = RuleV;

    open spec fn view(&self) -> RuleV {
        RuleV {
            selectors: self.selectors.deep_view(),
            declarations: self.declarations.deep_view(),
        }
    }
}

impl DeepView for Rule {
    type V = RuleV;

    open spec fn deep_view(&self) -> RuleV {
        self@
    }
}

impl View for StyleSheet {
    type V = Seq<RuleV>;

    open spec fn view(&self) -> Seq<RuleV> {
        self.rules.deep_view()
    }
}

impl Clone for Value {
    fn clone(&self) -> (r: Self)
        ensures
            r@ == self@,
    {
        match self {
            Value::Keyword(s) => Value::Keyword(s.clone()),
            Value::Length(v, u) => Value::Length(*v, *u),
            Value::Color(c) => Value::Color(*c),
        }
    }
}

impl Clone for Declaration {
    fn clone(&self) -> (r: Self)
        ensures
            r@ == self@,
    {
        Declaration { name: self.name.clone(), value: self.value.clone() }
    }
}

/// The length of a value in thousandths of a pixel; anything but a pixel
/// length counts as zero.
pub open spec fn spec_to_px(v: ValueV) -> int {
    match v {
        ValueV::Length(f, Unit::Px) => f,
        _ => 0,
    }
}

/// Whether a value is the keyword `auto`.
pub open spec fn spec_is_auto(v: ValueV) -> bool {
    v == ValueV::Keyword("auto"@)
}

impl Value {
    /// The value as a pixel count (thousandths); keywords and colors give 0.
    pub fn to_px(&self) -> (r: i64)
        ensures
            r as int == spec_to_px(self@),
    {
        match self {
            Value::Length(f, Unit::Px) => *f,
            _ => 0,
        }
    }

    /// Whether this value is the keyword `auto`.
    pub fn is_auto(&self) -> (r: bool)
        ensures
            r == spec_is_auto(self@),
    {
        match self {
            Value::Keyword(s) => {
                let r = chars::str_eq(s.as_str(), "auto");
                proof {
                    reveal_strlit("auto");
                    if r {
                        assert(self@ == ValueV::Keyword("auto"@));
                    }
                }
                r
            },
            _ => false,
        }
    }
}

/// A character cursor over a CSS source text. `pos` counts characters.
#[derive(Debug, PartialEq, Eq)]
pub struct Parser {
    pub pos: usize,
    pub input: String,
}

impl Parser {
    /// The cursor sits inside its text.
    pub open spec fn wf(&self) -> bool {
        self.pos <= self.input@.len()
    }

    /// The character under the cursor.
    pub fn next_char(&self) -> (c: char)
        requires
            self.pos < self.input@.len(),
        ensures
            c == self.input@[self.pos as int],
    {
        self.input.as_str().get_char(self.pos)
    }

    /// Whether the whole text was consumed.
    pub fn eof(&self) -> (r: bool)
        ensures
            r == (self.pos >= self.input@.len()),
    {
        self.pos >= self.input.as_str().unicode_len()
    }

    /// Consume and return the character under the cursor.
    pub fn consume_char(&mut self) -> (c: char)
        requires
            old(self).pos < old(self).input@.len(),
        ensures
            final(self).input == old(self).input,
            final(self).pos == old(self).pos + 1,
            c == old(self).input@[old(self).pos as int],
    {
        let n = self.input.as_str().unicode_len();
        let c = self.input.as_str().get_char(self.pos);
        self.pos = self.pos + 1;
        c
    }

    /// Consume the longest run of characters accepted by `test`.
    pub fn consume_while<F: Fn(char) -> bool>(&mut self, test: F) -> (r: String)
        requires
            old(self).wf(),
            forall|c: char| #[trigger] call_requires(test, (c,)),
        ensures
            final(self).input == old(self).input,
            old(self).pos <= final(self).pos,
            final(self).wf(),
            r@ == final(self).input@.subrange(old(self).pos as int, final(self).pos as int),
            forall|j: int|
                old(self).pos <= j < final(self).pos ==> call_ensures(
                    test,
                    (final(self).input@[j],),
                    true,
                ),
            final(self).pos == final(self).input@.len() || call_ensures(
                test,
                (final(self).input@[final(self).pos as int],),
                false,
            ),
    {
        let mut r = String::new();
        let ghost p0 = self.pos as int;
        proof {
            assert(r@ =~= self.input@.subrange(p0, p0));
        }
        loop
            invariant
                self.input == old(self).input,
                p0 == old(self).pos as int,
                0 <= p0 <= self.pos as int <= self.input@.len(),
                r@ == self.input@.subrange(p0, self.pos as int),
                forall|j: int|
                    p0 <= j < self.pos as int ==> call_ensures(test, (self.input@[j],), true),
                forall|c: char| #[trigger] call_requires(test, (c,)),
            ensures
                self.input == old(self).input,
                p0 == old(self).pos as int,
                0 <= p0 <= self.pos as int <= self.input@.len(),
                r@ == self.input@.subrange(p0, self.pos as int),
                forall|j: int|
                    p0 <= j < self.pos as int ==> call_ensures(test, (self.input@[j],), true),
                self.pos as int == self.input@.len() || call_ensures(
                    test,
                    (self.input@[self.pos as int],),
                    false,
                ),
            decreases self.input@.len() - self.pos as int,
        {
            if self.eof() {
                break ;
            }
            let c = self.next_char();
            if !test(c) {
                break ;
            }
            let c2 = self.consume_char();
            chars::push_char(&mut r, c2);
            proof {
                assert(r@ =~= self.input@.subrange(p0, self.pos as int));
            }
        }
        r
    }

    /// Consume white space.
    pub fn consume_whitespace(&mut self)
        requires
            old(self).wf(),
        ensures
            final(self).input == old(self).input,
            final(self).wf(),
            old(self).pos <= final(self).pos,
            final(self).pos as int == chars::ws_end(old(self).input@, old(self).pos as int),
    {
        let ghost src = self.input@;
        let ghost p0 = self.pos as int;
        let test = |c: char| -> (b: bool) ensures b == chars::is_space(c) { chars::space(c) };
        let _ = self.consume_while(test);
        proof {
            chars::lemma_ws_end_is(src, p0, self.pos as int);
        }
    }
}

/// The view of an optional string.
pub open spec fn opt_view(o: Option<String>) -> Option<Seq<char>> {
    match o {
        Some(s) => Some(s@),
        None => None,
    }
}

/// The numeric value of a run of decimal digits.
pub open spec fn digits_val(s: Seq<char>) -> int
    decreases s.len(),
{
    if s.len() == 0 {
        0
    } else {
        digits_val(s.drop_last()) * 10 + chars::digit_value(s.last())
    }
}

/// The value of the leading fractional digits, in thousandths.
pub open spec fn frac_val(s: Seq<char>) -> int {
    if s.len() == 0 {
        0
    } else if s.len() == 1 {
        digits_val(s) * 100
    } else if s.len() == 2 {
        digits_val(s) * 10
    } else {
        digits_val(s.subrange(0, 3))
    }
}

/// Parsed lengths are capped at `PX_LIMIT`.
pub open spec fn clamp_px(v: int) -> int {
    if v > px::PX_LIMIT {
        px::PX_LIMIT as int
    } else {
        v
    }
}

/// The value of a number token, in thousandths of a pixel: an integer
/// part, at most one dot, and a fractional part read to millipixel
/// precision. An empty token, a lone dot or a second dot is refused.
pub open spec fn number_value(s: Seq<char>) -> Option<int> {
    let k = chars::until_end(s, 0, '.');
    if s.len() == 0 {
        None
    } else if k == s.len() {
        Some(clamp_px(digits_val(s) * 1000))
    } else if chars::until_end(s, k + 1, '.') != s.len() {
        None
    } else if k == 0 && k + 1 == s.len() {
        None
    } else {
        Some(clamp_px(digits_val(s.subrange(0, k)) * 1000 + frac_val(s.subrange(k + 1, s.len() as int))))
    }
}

/// What `Parser::parse_number` consumes and yields.
pub open spec fn sp_number(src: Seq<char>, pos: int) -> Option<(int, int)> {
    let end = chars::number_end(src, pos);
    match number_value(src.subrange(pos, end)) {
        Some(v) => Some((v, end)),
        None => None,
    }
}

/// What `Parser::parse_hex_pair` consumes and yields.
pub open spec fn sp_hex_pair(src: Seq<char>, pos: int) -> Option<(int, int)> {
    if pos + 2 <= src.len() && chars::is_hex_digit(src[pos]) && chars::is_hex_digit(src[pos + 1]) {
        Some((chars::hex_value(src[pos]) * 16 + chars::hex_value(src[pos + 1]), pos + 2))
    } else {
        None
    }
}

/// What `Parser::parse_color` consumes and yields: three hex pairs, with
/// full alpha.
pub open spec fn sp_color(src: Seq<char>, pos: int) -> Option<(Color, int)> {
    match sp_hex_pair(src, pos) {
        None => None,
        Some((r, p1)) => match sp_hex_pair(src, p1) {
            None => None,
            Some((g, p2)) => match sp_hex_pair(src, p2) {
                None => None,
                Some((b, p3)) => Some(
                    (Color { r: r as u8, g: g as u8, b: b as u8, a: 255u8 }, p3),
                ),
            },
        },
    }
}

/// What `Parser::parse_value` consumes and yields: a length for a leading
/// digit (the rest of the token up to `;` is discarded), a color after
/// `#`, a keyword otherwise.
pub open spec fn sp_value(src: Seq<char>, pos: int) -> Option<(ValueV, int)> {
    if pos >= src.len() {
        None
    } else if chars::is_digit(src[pos]) {
        match sp_number(src, pos) {
            None => None,
            Some((v, p1)) => Some((ValueV::Length(v, Unit::Px), chars::until_end(src, p1, ';'))),
        }
    } else if src[pos] == '#' {
        match sp_color(src, pos + 1) {
            None => None,
            Some((c, p1)) => Some((ValueV::Color(c), p1)),
        }
    } else {
        let e = chars::name_end(src, pos);
        Some((ValueV::Keyword(src.subrange(pos, e)), e))
    }
}

/// What `Parser::parse_declaration` consumes and yields: `name : value`.
pub open spec fn sp_declaration(src: Seq<char>, pos: int) -> Option<(DeclarationV, int)> {
    let ne = chars::name_end(src, pos);
    if ne >= src.len() {
        None
    } else if src[ne] != ':' {
        None
    } else {
        let p2 = chars::ws_end(src, ne + 1);
        match sp_value(src, p2) {
            None => None,
            Some((v, p3)) => Some((DeclarationV { name: src.subrange(pos, ne), value: v }, p3)),
        }
    }
}

/// The declarations inside a block, after the opening brace: repeated
/// `name : value ;` up to the closing brace, which is consumed.
pub open spec fn sp_declaration_items(src: Seq<char>, pos: int) -> Option<(Seq<DeclarationV>, int)>
    decreases src.len() - pos,
{
    let p2 = chars::ws_end(src, pos);
    if p2 >= src.len() {
        None
    } else if src[p2] == '}' {
        Some((Seq::empty(), p2 + 1))
    } else {
        match sp_declaration(src, p2) {
            None => None,
            Some((d, p3)) => if p3 >= src.len() {
                None
            } else if src[p3] != ';' {
                None
            } else if pos < p3 + 1 <= src.len() {
                match sp_declaration_items(src, p3 + 1) {
                    None => None,
                    Some((ds, p4)) => Some((seq![d] + ds, p4)),
                }
            } else {
                None
            },
        }
    }
}

/// What `Parser::parse_declarations` consumes and yields: a brace-wrapped
/// list of declarations.
pub open spec fn sp_declarations(src: Seq<char>, pos: int) -> Option<(Seq<DeclarationV>, int)> {
    if pos >= src.len() {
        None
    } else if src[pos] != '{' {
        None
    } else {
        sp_declaration_items(src, pos + 1)
    }
}

/// An empty simple selector.
pub open spec fn empty_selector() -> SimpleSelectorV {
    SimpleSelectorV { tag_name: None, id: None, class: Seq::empty() }
}

/// What `Parser::parse_simple_selector` consumes and yields, growing `acc`:
/// `#` adds an id, `.` adds a class, an identifier sets the tag name; a
/// `,` or `{` (or the end of the text) stops the scan.
pub open spec fn sp_simple_selector(src: Seq<char>, pos: int, acc: SimpleSelectorV) -> Option<
    (SimpleSelectorV, int),
>
    decreases src.len() - pos,
{
    if pos >= src.len() {
        Some((acc, pos))
    } else {
        let p2 = chars::ws_end(src, pos);
        if p2 >= src.len() {
            None
        } else if src[p2] == ',' || src[p2] == '{' {
            Some((acc, p2))
        } else if src[p2] == '#' {
            let ne = chars::name_end(src, p2 + 1);
            if pos < ne <= src.len() {
                sp_simple_selector(
                    src,
                    ne,
                    SimpleSelectorV {
                        tag_name: acc.tag_name,
                        id: Some(src.subrange(p2 + 1, ne)),
                        class: acc.class,
                    },
                )
            } else {
                None
            }
        } else if src[p2] == '.' {
            let ne = chars::name_end(src, p2 + 1);
            if pos < ne <= src.len() {
                sp_simple_selector(
                    src,
                    ne,
                    SimpleSelectorV {
                        tag_name: acc.tag_name,
                        id: acc.id,
                        class: acc.class.push(src.subrange(p2 + 1, ne)),
                    },
                )
            } else {
                None
            }
        } else {
            let ne = chars::name_end(src, p2);
            if ne == p2 {
                None
            } else if pos < ne <= src.len() {
                sp_simple_selector(
                    src,
                    ne,
                    SimpleSelectorV {
                        tag_name: Some(src.subrange(p2, ne)),
                        id: acc.id,
                        class: acc.class,
                    },
                )
            } else {
                None
            }
        }
    }
}

/// What `Parser::parse_selectors` consumes and yields: simple selectors
/// separated by commas, stopped by `{`, which is not consumed.
pub open spec fn sp_selectors(src: Seq<char>, pos: int) -> Option<(Seq<SelectorV>, int)>
    decreases src.len() - pos,
{
    match sp_simple_selector(src, pos, empty_selector()) {
        None => None,
        Some((sel, p1)) => {
            let p2 = chars::ws_end(src, p1);
            if p2 >= src.len() {
                None
            } else if src[p2] == '{' {
                Some((seq![SelectorV::Simple(sel)], p2))
            } else if src[p2] == ',' {
                let p3 = chars::ws_end(src, p2 + 1);
                if pos < p3 <= src.len() {
                    match sp_selectors(src, p3) {
                        None => None,
                        Some((rest, p4)) => Some((seq![SelectorV::Simple(sel)] + rest, p4)),
                    }
                } else {
                    None
                }
            } else {
                None
            }
        },
    }
}

/// What `Parser::parse_rule` consumes and yields: a selector list and its
/// declaration block.
pub open spec fn sp_rule(src: Seq<char>, pos: int) -> Option<(RuleV, int)> {
    match sp_selectors(src, pos) {
        None => None,
        Some((sels, p1)) => match sp_declarations(src, p1) {
            None => None,
            Some((ds, p2)) => Some((RuleV { selectors: sels, declarations: ds }, p2)),
        },
    }
}

/// What `Parser::parse_rules` consumes and yields: rules up to the end of
/// the text.
pub open spec fn sp_rules(src: Seq<char>, pos: int) -> Option<(Seq<RuleV>, int)>
    decreases src.len() - pos,
{
    let p1 = chars::ws_end(src, pos);
    if p1 >= src.len() {
        Some((Seq::empty(), p1))
    } else {
        match sp_rule(src, p1) {
            None => None,
            Some((r, p2)) => if pos < p2 <= src.len() {
                match sp_rules(src, p2) {
                    None => None,
                    Some((rs, p3)) => Some((seq![r] + rs, p3)),
                }
            } else {
                None
            },
        }
    }
}

/// What `parse` yields on a whole source text.
pub open spec fn sp_css(src: Seq<char>) -> Option<Seq<RuleV>> {
    match sp_rules(src, 0) {
        Some((rs, _)) => Some(rs),
        None => None,
    }
}

impl Parser {
    /// Consume a CSS identifier: letters, digits and `-`.
    pub fn parse_name(&mut self) -> (r: String)
        requires
            old(self).wf(),
        ensures
            final(self).input == old(self).input,
            final(self).wf(),
            old(self).pos <= final(self).pos,
            final(self).pos as int == chars::name_end(old(self).input@, old(self).pos as int),
            r@ == old(self).input@.subrange(old(self).pos as int, final(self).pos as int),
    {
        let ghost src = self.input@;
        let ghost p0 = self.pos as int;
        let test = |c: char| -> (b: bool) ensures b == chars::is_name_char(c) { chars::name_char(c) };
        let r = self.consume_while(test);
        proof {
            chars::lemma_name_end_is(src, p0, self.pos as int);
        }
        r
    }

    /// Consume a decimal number token and give its value in thousandths of
    /// a pixel.
    pub fn parse_number(&mut self) -> (r: Result<i64, ParseError>)
        requires
            old(self).wf(),
        ensures
            final(self).input == old(self).input,
            final(self).wf(),
            old(self).pos <= final(self).pos,
            match r {
                Ok(v) => sp_number(old(self).input@, old(self).pos as int) == Some(
                    (v as int, final(self).pos as int),
                ) && 0 <= v <= px::PX_LIMIT,
                Err(_) => sp_number(old(self).input@, old(self).pos as int) is None,
            },
    {
        let ghost src = self.input@;
        let ghost p0 = self.pos as int;
        let test = |c: char| -> (b: bool) ensures b == (chars::is_digit(c) || c == '.') { chars::digit(c) || c == '.' };
        let s = self.consume_while(test);
        proof {
            chars::lemma_number_end_is(src, p0, self.pos as int);
            assert forall|j: int| 0 <= j < s@.len() implies chars::is_digit(s@[j]) || s@[j]
                == '.' by {
                assert(s@[j] == src[p0 + j]);
                assert(call_ensures(test, (src[p0 + j],), true));
            }
        }
        match number_value_of(&s) {
            Some(v) => Ok(v),
            None => Err(ParseError { pos: self.pos }),
        }
    }

    /// Consume two hexadecimal digits and give their value.
    pub fn parse_hex_pair(&mut self) -> (r: Result<u8, ParseError>)
        requires
            old(self).wf(),
        ensures
            final(self).input == old(self).input,
            final(self).wf(),
            old(self).pos <= final(self).pos,
            match r {
                Ok(v) => sp_hex_pair(old(self).input@, old(self).pos as int) == Some(
                    (v as int, final(self).pos as int),
                ),
                Err(_) => sp_hex_pair(old(self).input@, old(self).pos as int) is None,
            },
    {
        let n = self.input.as_str().unicode_len();
        if self.pos >= n || self.pos + 1 >= n {
            return Err(ParseError { pos: self.pos });
        }
        let c1 = self.input.as_str().get_char(self.pos);
        let c2 = self.input.as_str().get_char(self.pos + 1);
        match (chars::hex_digit_value(c1), chars::hex_digit_value(c2)) {
            (Some(h), Some(l)) => {
                self.pos = self.pos + 2;
                Ok(h * 16 + l)
            },
            _ => Err(ParseError { pos: self.pos }),
        }
    }

    /// Consume six hexadecimal digits and give a fully opaque color.
    pub fn parse_color(&mut self) -> (r: Result<Color, ParseError>)
        requires
            old(self).wf(),
        ensures
            final(self).input == old(self).input,
            final(self).wf(),
            old(self).pos <= final(self).pos,
            match r {
                Ok(c) => sp_color(old(self).input@, old(self).pos as int) == Some(
                    (c, final(self).pos as int),
                ),
                Err(_) => sp_color(old(self).input@, old(self).pos as int) is None,
            },
    {
        let red = match self.parse_hex_pair() {
            Ok(v) => v,
            Err(e) => {
                return Err(e);
            },
        };
        let green = match self.parse_hex_pair() {
            Ok(v) => v,
            Err(e) => {
                return Err(e);
            },
        };
        let blue = match self.parse_hex_pair() {
            Ok(v) => v,
            Err(e) => {
                return Err(e);
            },
        };
        Ok(Color { r: red, g: green, b: blue, a: 255 })
    }

    /// Consume one value: a pixel length, a `#`-color, or a keyword.
    pub fn parse_value(&mut self) -> (r: Result<Value, ParseError>)
        requires
            old(self).wf(),
        ensures
            final(self).input == old(self).input,
            final(self).wf(),
            old(self).pos <= final(self).pos,
            match r {
                Ok(v) => sp_value(old(self).input@, old(self).pos as int) == Some(
                    (v@, final(self).pos as int),
                ),
                Err(_) => sp_value(old(self).input@, old(self).pos as int) is None,
            },
    {
        let ghost src = self.input@;
        let ghost p0 = self.pos as int;
        if self.eof() {
            return Err(ParseError { pos: self.pos });
        }
        let c = self.next_char();
        if chars::digit(c) {
            let v = match self.parse_number() {
                Ok(v) => v,
                Err(e) => {
                    return Err(e);
                },
            };
            let ghost p1 = self.pos as int;
            let test = |ch: char| -> (b: bool) ensures b == (ch != ';') { ch != ';' };
            let _ = self.consume_while(test);
            proof {
                chars::lemma_until_end_is(src, p1, ';', self.pos as int);
            }
            Ok(Value::Length(v, Unit::Px))
        } else if c == '#' {
            let _ = self.consume_char();
            match self.parse_color() {
                Ok(col) => Ok(Value::Color(col)),
                Err(e) => Err(e),
            }
        } else {
            let name = self.parse_name();
            Ok(Value::Keyword(name))
        }
    }

    /// Consume one declaration: `name : value`.
    pub fn parse_declaration(&mut self) -> (r: Result<Declaration, ParseError>)
        requires
            old(self).wf(),
        ensures
            final(self).input == old(self).input,
            final(self).wf(),
            old(self).pos <= final(self).pos,
            match r {
                Ok(d) => sp_declaration(old(self).input@, old(self).pos as int) == Some(
                    (d@, final(self).pos as int),
                ) && old(self).pos < final(self).pos,
                Err(_) => sp_declaration(old(self).input@, old(self).pos as int) is None,
            },
    {
        let name = self.parse_name();
        if self.eof() {
            return Err(ParseError { pos: self.pos });
        }
        let c = self.consume_char();
        if c != ':' {
            return Err(ParseError { pos: self.pos });
        }
        self.consume_whitespace();
        let value = match self.parse_value() {
            Ok(v) => v,
            Err(e) => {
                return Err(e);
            },
        };
        Ok(Declaration { name, value })
    }

    /// Consume a brace-wrapped declaration block.
    pub fn parse_declarations(&mut self) -> (r: Result<Vec<Declaration>, ParseError>)
        requires
            old(self).wf(),
        ensures
            final(self).input == old(self).input,
            final(self).wf(),
            old(self).pos <= final(self).pos,
            match r {
                Ok(ds) => sp_declarations(old(self).input@, old(self).pos as int) == Some(
                    (ds.deep_view(), final(self).pos as int),
                ) && old(self).pos < final(self).pos,
                Err(_) => sp_declarations(old(self).input@, old(self).pos as int) is None,
            },
    {
        let ghost src = self.input@;
        let ghost p0 = self.pos as int;
        if self.eof() {
            return Err(ParseError { pos: self.pos });
        }
        let c = self.consume_char();
        if c != '{' {
            return Err(ParseError { pos: self.pos });
        }
        let ghost q0 = self.pos as int;
        let mut ds: Vec<Declaration> = Vec::new();
        proof {
            assert(ds.deep_view() =~= Seq::<DeclarationV>::empty());
        }
        loop
            invariant
                self.wf(),
                self.input == old(self).input,
                self.input@ == src,
                p0 == old(self).pos as int,
                0 <= p0 < src.len(),
                src[p0] == '{',
                q0 == p0 + 1,
                q0 <= self.pos as int,
                (match sp_declaration_items(src, self.pos as int) {
                    Some((rest, end)) => sp_declaration_items(src, q0) == Some(
                        (ds.deep_view() + rest, end),
                    ),
                    None => sp_declaration_items(src, q0) is None,
                }),
            decreases src.len() - self.pos as int,
        {
            let ghost pa = self.pos as int;
            let ghost ds0 = ds.deep_view();
            self.consume_whitespace();
            let ghost pb = self.pos as int;
            if self.eof() {
                return Err(ParseError { pos: self.pos });
            }
            if self.next_char() == '}' {
                let _ = self.consume_char();
                proof {
                    assert(sp_declaration_items(src, pa) == Some(
                        (Seq::<DeclarationV>::empty(), pb + 1),
                    ));
                    assert(ds.deep_view() + Seq::<DeclarationV>::empty() =~= ds.deep_view());
                }
                return Ok(ds);
            }
            let d = match self.parse_declaration() {
                Ok(d) => d,
                Err(e) => {
                    return Err(e);
                },
            };
            let ghost dv = d@;
            let ghost pc = self.pos as int;
            ds.push(d);
            proof {
                assert(ds.deep_view() =~= ds0.push(dv));
            }
            if self.eof() {
                return Err(ParseError { pos: self.pos });
            }
            let c2 = self.consume_char();
            if c2 != ';' {
                return Err(ParseError { pos: self.pos });
            }
            proof {
                let pd = self.pos as int;
                assert(pd == pc + 1);
                match sp_declaration_items(src, pd) {
                    Some((rest2, end2)) => {
                        assert(sp_declaration_items(src, pa) == Some((seq![dv] + rest2, end2)));
                        assert(ds0 + (seq![dv] + rest2) =~= ds.deep_view() + rest2);
                    },
                    None => {
                        assert(sp_declaration_items(src, pa) is None);
                    },
                }
            }
        }
    }

    /// Consume one simple selector, stopping at `,`, `{` or the end of the
    /// text.
    pub fn parse_simple_selector(&mut self) -> (r: Result<SimpleSelector, ParseError>)
        requires
            old(self).wf(),
        ensures
            final(self).input == old(self).input,
            final(self).wf(),
            old(self).pos <= final(self).pos,
            match r {
                Ok(sel) => sp_simple_selector(
                    old(self).input@,
                    old(self).pos as int,
                    empty_selector(),
                ) == Some((sel@, final(self).pos as int)),
                Err(_) => sp_simple_selector(
                    old(self).input@,
                    old(self).pos as int,
                    empty_selector(),
                ) is None,
            },
    {
        let ghost src = self.input@;
        let ghost p0 = self.pos as int;
        let mut tag_name: Option<String> = None;
        let mut id: Option<String> = None;
        let mut class: Vec<String> = Vec::new();
        proof {
            assert(class.deep_view() =~= Seq::<Seq<char>>::empty());
        }
        loop
            invariant
                self.wf(),
                self.input == old(self).input,
                self.input@ == src,
                p0 == old(self).pos as int,
                p0 <= self.pos as int,
                sp_simple_selector(src, p0, empty_selector()) == sp_simple_selector(
                    src,
                    self.pos as int,
                    SimpleSelectorV {
                        tag_name: opt_view(tag_name),
                        id: opt_view(id),
                        class: class.deep_view(),
                    },
                ),
            decreases src.len() - self.pos as int,
        {
            if self.eof() {
                return Ok(SimpleSelector { tag_name, id, class });
            }
            let ghost pa = self.pos as int;
            let ghost acc0 = SimpleSelectorV {
                tag_name: opt_view(tag_name),
                id: opt_view(id),
                class: class.deep_view(),
            };
            self.consume_whitespace();
            let ghost pb = self.pos as int;
            if self.eof() {
                return Err(ParseError { pos: self.pos });
            }
            let c = self.next_char();
            if c == ',' || c == '{' {
                return Ok(SimpleSelector { tag_name, id, class });
            }
            if c == '#' {
                let _ = self.consume_char();
                let name = self.parse_name();
                id = Some(name);
            } else if c == '.' {
                let ghost cls0 = class.deep_view();
                let _ = self.consume_char();
                let name = self.parse_name();
                let ghost nv = name@;
                class.push(name);
                proof {
                    assert(class.deep_view() =~= cls0.push(nv));
                }
            } else {
                let name = self.parse_name();
                if name.as_str().unicode_len() == 0 {
                    return Err(ParseError { pos: self.pos });
                }
                tag_name = Some(name);
            }
        }
    }

    /// Consume a comma-separated selector list, stopping at `{`, which is
    /// left in place.
    pub fn parse_selectors(&mut self) -> (r: Result<Vec<Selector>, ParseError>)
        requires
            old(self).wf(),
        ensures
            final(self).input == old(self).input,
            final(self).wf(),
            old(self).pos <= final(self).pos,
            match r {
                Ok(v) => sp_selectors(old(self).input@, old(self).pos as int) == Some(
                    (v.deep_view(), final(self).pos as int),
                ),
                Err(_) => sp_selectors(old(self).input@, old(self).pos as int) is None,
            },
    {
        let ghost src = self.input@;
        let ghost p0 = self.pos as int;
        let mut selectors: Vec<Selector> = Vec::new();
        proof {
            assert(selectors.deep_view() =~= Seq::<SelectorV>::empty());
        }
        loop
            invariant
                self.wf(),
                self.input == old(self).input,
                self.input@ == src,
                p0 == old(self).pos as int,
                p0 <= self.pos as int,
                (match sp_selectors(src, self.pos as int) {
                    Some((rest, end)) => sp_selectors(src, p0) == Some(
                        (selectors.deep_view() + rest, end),
                    ),
                    None => sp_selectors(src, p0) is None,
                }),
            decreases src.len() - self.pos as int,
        {
            let ghost pa = self.pos as int;
            let ghost sels0 = selectors.deep_view();
            let sel = match self.parse_simple_selector() {
                Ok(s) => s,
                Err(e) => {
                    return Err(e);
                },
            };
            let ghost selv = sel@;
            selectors.push(Selector::Simple(sel));
            proof {
                assert(selectors.deep_view() =~= sels0.push(SelectorV::Simple(selv)));
            }
            let ghost pb = self.pos as int;
            self.consume_whitespace();
            let ghost pc = self.pos as int;
            if self.eof() {
                return Err(ParseError { pos: self.pos });
            }
            let c = self.next_char();
            if c == '{' {
                proof {
                    assert(sp_selectors(src, pa) == Some((seq![SelectorV::Simple(selv)], pc)));
                    assert(sels0 + seq![SelectorV::Simple(selv)] =~= selectors.deep_view());
                }
                return Ok(selectors);
            }
            if c == ',' {
                let _ = self.consume_char();
                self.consume_whitespace();
                proof {
                    let pd = self.pos as int;
                    match sp_selectors(src, pd) {
                        Some((rest2, end2)) => {
                            assert(sp_selectors(src, pa) == Some(
                                (seq![SelectorV::Simple(selv)] + rest2, end2),
                            ));
                            assert(sels0 + (seq![SelectorV::Simple(selv)] + rest2)
                                =~= selectors.deep_view() + rest2);
                        },
                        None => {
                            assert(sp_selectors(src, pa) is None);
                        },
                    }
                }
            } else {
                return Err(ParseError { pos: self.pos });
            }
        }
    }

    /// Consume one rule: selectors, then a declaration block.
    pub fn parse_rule(&mut self) -> (r: Result<Rule, ParseError>)
        requires
            old(self).wf(),
        ensures
            final(self).input == old(self).input,
            final(self).wf(),
            old(self).pos <= final(self).pos,
            match r {
                Ok(rule) => sp_rule(old(self).input@, old(self).pos as int) == Some(
                    (rule@, final(self).pos as int),
                ) && old(self).pos < final(self).pos,
                Err(_) => sp_rule(old(self).input@, old(self).pos as int) is None,
            },
    {
        let selectors = match self.parse_selectors() {
            Ok(v) => v,
            Err(e) => {
                return Err(e);
            },
        };
        let declarations = match self.parse_declarations() {
            Ok(v) => v,
            Err(e) => {
                return Err(e);
            },
        };
        Ok(Rule { selectors, declarations })
    }

    /// Consume rules up to the end of the text.
    pub fn parse_rules(&mut self) -> (r: Result<Vec<Rule>, ParseError>)
        requires
            old(self).wf(),
        ensures
            final(self).input == old(self).input,
            final(self).wf(),
            old(self).pos <= final(self).pos,
            match r {
                Ok(rules) => sp_rules(old(self).input@, old(self).pos as int) == Some(
                    (rules.deep_view(), final(self).pos as int),
                ),
                Err(_) => sp_rules(old(self).input@, old(self).pos as int) is None,
            },
    {
        let ghost src = self.input@;
        let ghost p0 = self.pos as int;
        let mut rules: Vec<Rule> = Vec::new();
        proof {
            assert(rules.deep_view() =~= Seq::<RuleV>::empty());
        }
        loop
            invariant
                self.wf(),
                self.input == old(self).input,
                self.input@ == src,
                p0 == old(self).pos as int,
                p0 <= self.pos as int,
                (match sp_rules(src, self.pos as int) {
                    Some((rest, end)) => sp_rules(src, p0) == Some(
                        (rules.deep_view() + rest, end),
                    ),
                    None => sp_rules(src, p0) is None,
                }),
            decreases src.len() - self.pos as int,
        {
            let ghost pa = self.pos as int;
            let ghost rules0 = rules.deep_view();
            self.consume_whitespace();
            let ghost pb = self.pos as int;
            if self.eof() {
                proof {
                    assert(sp_rules(src, pa) == Some((Seq::<RuleV>::empty(), pb)));
                    assert(rules.deep_view() + Seq::<RuleV>::empty() =~= rules.deep_view());
                }
                return Ok(rules);
            }
            let rule = match self.parse_rule() {
                Ok(r) => r,
                Err(e) => {
                    return Err(e);
                },
            };
            let ghost rv = rule@;
            rules.push(rule);
            proof {
                assert(rules.deep_view() =~= rules0.push(rv));
                let pc = self.pos as int;
                match sp_rules(src, pc) {
                    Some((rest2, end2)) => {
                        assert(sp_rules(src, pa) == Some((seq![rv] + rest2, end2)));
                        assert(rules0 + (seq![rv] + rest2) =~= rules.deep_view() + rest2);
                    },
                    None => {
                        assert(sp_rules(src, pa) is None);
                    },
                }
            }
        }
    }
}

/// Parse a whole CSS source into a stylesheet.
pub fn parse(source: String) -> (r: Result<StyleSheet, ParseError>)
    ensures
        match r {
            Ok(ss) => sp_css(source@) == Some(ss@),
            Err(_) => sp_css(source@) is None,
        },
{
    let mut parser = Parser { pos: 0, input: source };
    match parser.parse_rules() {
        Ok(rules) => Ok(StyleSheet { rules }),
        Err(e) => Err(e),
    }
}

/// A run of digits has a non-negative value.
proof fn lemma_digits_val_nonneg(s: Seq<char>)
    requires
        forall|j: int| 0 <= j < s.len() ==> chars::is_digit(s[j]),
    ensures
        digits_val(s) >= 0,
    decreases s.len(),
{
    if s.len() > 0 {
        lemma_digits_val_nonneg(s.drop_last());
    }
}

/// Clamping commutes with the digit-accumulation step.
proof fn lemma_clamp_step(v: int, d: int)
    requires
        v >= 0,
        0 <= d <= 9,
    ensures
        clamp_px(clamp_px(v) * 10 + d) == clamp_px(v * 10 + d),
{
    if v > px::PX_LIMIT {
        assert(v * 10 == v + 9 * v);
    }
}

/// Clamping commutes with the final scaling step.
proof fn lemma_clamp_scale(v: int, f: int)
    requires
        v >= 0,
        0 <= f <= 999,
    ensures
        clamp_px(clamp_px(v) * 1000 + f) == clamp_px(v * 1000 + f),
{
    if v > px::PX_LIMIT {
        assert(v * 1000 == v + 999 * v);
    }
}

/// The value of a run of digits between two positions, capped at
/// `PX_LIMIT`.
fn digits_value_of(s: &String, from: usize, to: usize) -> (r: i64)
    requires
        from <= to <= s@.len(),
        forall|j: int| from <= j < to ==> chars::is_digit(s@[j]),
    ensures
        0 <= r <= px::PX_LIMIT,
        r as int == clamp_px(digits_val(s@.subrange(from as int, to as int))),
{
    let mut acc: i64 = 0;
    proof {
        assert(s@.subrange(from as int, from as int) =~= Seq::<char>::empty());
    }
    for i in from..to
        invariant
            from <= i <= to <= s@.len(),
            forall|j: int| from <= j < to ==> chars::is_digit(s@[j]),
            0 <= acc <= px::PX_LIMIT,
            acc as int == clamp_px(digits_val(s@.subrange(from as int, i as int))),
    {
        let c = s.as_str().get_char(i);
        let u = c as u32;
        let d = (u - 48) as i64;
        let mut acc2 = acc * 10 + d;
        if acc2 > px::PX_LIMIT {
            acc2 = px::PX_LIMIT;
        }
        proof {
            let pre = s@.subrange(from as int, i as int);
            let post = s@.subrange(from as int, i as int + 1);
            assert(post.drop_last() =~= pre);
            assert(post.last() == s@[i as int]);
            lemma_digits_val_nonneg(pre);
            lemma_clamp_step(digits_val(pre), d as int);
        }
        acc = acc2;
    }
    acc
}

/// The numeric value of a number token, if it is well formed.
fn number_value_of(s: &String) -> (r: Option<i64>)
    requires
        forall|j: int| 0 <= j < s@.len() ==> chars::is_digit(s@[j]) || s@[j] == '.',
    ensures
        match r {
            Some(v) => number_value(s@) == Some(v as int) && 0 <= v <= px::PX_LIMIT,
            None => number_value(s@) is None,
        },
{
    let n = s.as_str().unicode_len();
    if n == 0 {
        return None;
    }
    // Find the first dot and whether a second one follows.
    let mut k: usize = n;
    let mut extra = false;
    for i in 0..n
        invariant
            n == s@.len(),
            k <= n,
            k == n ==> forall|j: int| 0 <= j < i ==> s@[j] != '.',
            k < n ==> k < i && s@[k as int] == '.' && (forall|j: int| 0 <= j < k ==> s@[j] != '.'),
            extra <==> exists|j: int| k < j < i && s@[j] == '.',
    {
        let c = s.as_str().get_char(i);
        if c == '.' {
            if k == n {
                k = i;
            } else {
                extra = true;
            }
        }
    }
    if k == n {
        proof {
            chars::lemma_until_end_is(s@, 0, '.', n as int);
        }
        let acc = digits_value_of(s, 0, n);
        let v = scale_to_milli(acc, 0);
        proof {
            assert(s@.subrange(0, n as int) =~= s@);
            lemma_digits_val_nonneg(s@);
            lemma_clamp_scale(digits_val(s@), 0);
        }
        return Some(v);
    }
    proof {
        chars::lemma_until_end_is(s@, 0, '.', k as int);
    }
    if extra {
        proof {
            let w = choose|j: int| k < j < n && s@[j] == '.';
            chars::lemma_until_end(s@, k as int + 1, '.');
            let e = chars::until_end(s@, k as int + 1, '.');
            if e == s@.len() {
                assert(s@[w] != '.');
            }
        }
        return None;
    }
    proof {
        chars::lemma_until_end_is(s@, k as int + 1, '.', n as int);
    }
    if k == 0 && n == 1 {
        return None;
    }
    let acc = digits_value_of(s, 0, k);
    let fstart = k + 1;
    let ghost fr = s@.subrange(k as int + 1, n as int);
    let f: i64 = if fstart >= n {
        proof {
            assert(fr =~= Seq::<char>::empty());
        }
        0
    } else {
        let d1 = digit_at(s, fstart);
        if fstart + 1 >= n {
            proof {
                reveal_with_fuel(digits_val, 4);
                assert(fr.drop_last() =~= Seq::<char>::empty());
                assert(fr.last() == s@[fstart as int]);
                assert(frac_val(fr) == d1 * 100);
            }
            d1 * 100
        } else {
            let d2 = digit_at(s, fstart + 1);
            if fstart + 2 >= n {
                proof {
                    reveal_with_fuel(digits_val, 4);
                    assert(fr.drop_last().drop_last() =~= Seq::<char>::empty());
                    assert(fr.drop_last().last() == s@[fstart as int]);
                    assert(fr.last() == s@[fstart as int + 1]);
                    assert(frac_val(fr) == d1 * 100 + d2 * 10);
                }
                d1 * 100 + d2 * 10
            } else {
                let d3 = digit_at(s, fstart + 2);
                proof {
                    reveal_with_fuel(digits_val, 5);
                    let t = fr.subrange(0, 3);
                    assert(t.drop_last().drop_last().drop_last() =~= Seq::<char>::empty());
                    assert(t.drop_last().drop_last().last() == s@[fstart as int]);
                    assert(t.drop_last().last() == s@[fstart as int + 1]);
                    assert(t.last() == s@[fstart as int + 2]);
                    assert(frac_val(fr) == d1 * 100 + d2 * 10 + d3);
                }
                d1 * 100 + d2 * 10 + d3
            }
        }
    };
    let v = scale_to_milli(acc, f);
    proof {
        lemma_digits_val_nonneg(s@.subrange(0, k as int));
        lemma_clamp_scale(digits_val(s@.subrange(0, k as int)), f as int);
    }
    Some(v)
}

/// One decimal digit read from the text.
fn digit_at(s: &String, i: usize) -> (d: i64)
    requires
        i < s@.len(),
        chars::is_digit(s@[i as int]),
    ensures
        d == chars::digit_value(s@[i as int]),
        0 <= d <= 9,
{
    let c = s.as_str().get_char(i);
    let u = c as u32;
    (u - 48) as i64
}

/// Whole pixels to thousandths, with the fractional part added and the
/// result capped at `PX_LIMIT`.
fn scale_to_milli(acc: i64, f: i64) -> (r: i64)
    requires
        0 <= acc <= px::PX_LIMIT,
        0 <= f <= 999,
    ensures
        r as int == clamp_px(acc * 1000 + f),
        0 <= r <= px::PX_LIMIT,
{
    let mut v = acc * 1000 + f;
    if v > px::PX_LIMIT {
        v = px::PX_LIMIT;
    }
    v
}

/// The specificity of a selector view.
pub open spec fn spec_specificity(s: SelectorV) -> (int, int, int) {
    match s {
        SelectorV::Simple(simple) => (
            if simple.id is Some {
                1int
            } else {
                0int
            },
            simple.class.len() as int,
            if simple.tag_name is Some {
                1int
            } else {
                0int
            },
        ),
    }
}

impl Selector {
    /// The selector's specificity: id count, class count, tag count.
    pub fn specificity(&self) -> (r: Specificity)
        ensures
            (r.0 as int, r.1 as int, r.2 as int) == spec_specificity(self@),
    {
        let Selector::Simple(simple) = self;
        let a: usize = if simple.id.is_some() {
            1
        } else {
            0
        };
        let b: usize = simple.class.len();
        let c: usize = if simple.tag_name.is_some() {
            1
        } else {
            0
        };
        (a, b, c)
    }
}

} // verus!
