use vstd::prelude::*;

use crate::dom::seq_views;
use crate::order::{
    lemma_sort_map, lemma_sort_sorted, pair_key, rank, sort_by_key, sort_by_specificity, sorted_by,
    Rank, Specificity,
};
use crate::parser::{
    char_len_utf8, char_width, concat, debug_char, debug_char_text, debug_str, debug_text,
    lemma_consumed, lemma_take_while_end, lemma_take_while_end_ge, msg_end_of_input,
    msg_expected_got, push_char, serr, str_eq, string_from_chars, take_while_end, utf8_len,
    whitespace, Parser, ParserError, ParserResult, SErr,
};

verus! {

// ---------------------------------------------------------------------------
// Style sheets
// ---------------------------------------------------------------------------

#[derive(Debug)]
pub struct Stylesheet {
    pub rules: Vec<Rule>,
}

#[derive(Debug)]
pub struct Rule {
    pub selectors: Vec<Selector>,
    pub declarations: Vec<Declaration>,
}

#[derive(Debug)]
pub enum Selector {
    Simple(SimpleSelector),
}

#[derive(Debug)]
pub struct SimpleSelector {
    pub tag_name: Option<String>,
    pub id: Option<String>,
    pub class: Vec<String>,
}

#[derive(Debug)]
pub struct Declaration {
    pub name: String,
    pub value: Value,
}

/// A property value. A length holds its number as written in the source:
/// digits with at most one `.`.
#[derive(Debug, PartialEq)]
pub enum Value {
    Keyword(String),
    Length(String, Unit),
    ColorValue(Color),
}

#[derive(Debug, Clone, Copy, PartialEq, Eq, Structural)]
pub enum Unit {
    Px,
}

#[derive(Debug, Clone, Copy, PartialEq, Eq, Structural, Default)]
pub struct Color {
    pub r: u8,
    pub g: u8,
    pub b: u8,
    pub a: u8,
}

// ---------------------------------------------------------------------------
// The model
// ---------------------------------------------------------------------------

pub struct SSelector {
    pub tag_name: Option<Seq<char>>,
    pub id: Option<Seq<char>>,
    pub class: Seq<Seq<char>>,
}

pub enum SValue {
    Keyword(Seq<char>),
    Length(Seq<char>, Unit),
    ColorValue(Color),
}

pub struct SDeclaration {
    pub name: Seq<char>,
    pub value: SValue,
}

pub struct SRule {
    pub selectors: Seq<SSelector>,
    pub declarations: Seq<SDeclaration>,
}

pub open spec fn opt_view(o: Option<String>) -> Option<Seq<char>> {
    match o {
        Some(s) => Some(s@),
        None => None,
    }
}

impl View for SimpleSelector {
    type V = SSelector;

    open spec fn view(&self) -> SSelector {
        SSelector {
            tag_name: opt_view(self.tag_name),
            id: opt_view(self.id),
            class: seq_views(self.class@),
        }
    }
}

impl View for Selector {
    type V = SSelector;

    open spec fn view(&self) -> SSelector {
        match self {
            Selector::Simple(s) => s@,
        }
    }
}

impl View for Value {
    type V = SValue;

    open spec fn view(&self) -> SValue {
        match self {
            Value::Keyword(s) => SValue::Keyword(s@),
            Value::Length(n, u) => SValue::Length(n@, *u),
            Value::ColorValue(c) => SValue::ColorValue(*c),
        }
    }
}

impl View for Declaration {
    type V = SDeclaration;

    open spec fn view(&self) -> SDeclaration {
        SDeclaration { name: self.name@, value: self.value@ }
    }
}

pub open spec fn selectors_view(v: Seq<Selector>) -> Seq<SSelector> {
    v.map_values(|s: Selector| s@)
}

pub open spec fn declarations_view(v: Seq<Declaration>) -> Seq<SDeclaration> {
    v.map_values(|d: Declaration| d@)
}

impl View for Rule {
    type V = SRule;

    open spec fn view(&self) -> SRule {
        SRule {
            selectors: selectors_view(self.selectors@),
            declarations: declarations_view(self.declarations@),
        }
    }
}

pub open spec fn rules_view(v: Seq<Rule>) -> Seq<SRule> {
    v.map_values(|r: Rule| r@)
}

impl View for Stylesheet {
    type V = Seq<SRule>;

    open spec fn view(&self) -> Seq<SRule> {
        rules_view(self.rules@)
    }
}

impl Clone for Value {
    fn clone(&self) -> (r: Self)
        ensures
            r@ == self@,
    {
        match self {
            Value::Keyword(s) => Value::Keyword(s.clone()),
            Value::Length(n, u) => Value::Length(n.clone(), *u),
            Value::ColorValue(c) => Value::ColorValue(*c),
        }
    }
}

// ---------------------------------------------------------------------------
// Specificity
// ---------------------------------------------------------------------------

/// The specificity of a selector: how many ids, classes and tag names it
/// names.
pub open spec fn selector_rank(s: SSelector) -> Rank {
    (if s.id is Some { 1 } else { 0 }, s.class.len() as int, if s.tag_name is Some { 1 } else { 0 })
}

pub open spec fn selector_key() -> spec_fn(SSelector) -> Rank {
    |s: SSelector| selector_rank(s)
}

/// Specificity counts ids first, then classes, then tag names: a selector
/// with an id is more specific, as a tuple, than one without; with ids
/// alike, the one with more classes is; with ids and classes alike, one
/// with a tag name is more specific than one without.
pub proof fn lemma_specificity_counts(a: SSelector, b: SSelector)
    ensures
        ({
            let ra = selector_rank(a);
            let rb = selector_rank(b);
            let b_below_a = rb.0 < ra.0 || (rb.0 == ra.0 && rb.1 < ra.1) || (rb.0 == ra.0 && rb.1
                == ra.1 && rb.2 < ra.2);
            &&& (a.id is Some && b.id is None) ==> b_below_a
            &&& ((a.id is Some) == (b.id is Some) && a.class.len() > b.class.len()) ==> b_below_a
            &&& ((a.id is Some) == (b.id is Some) && a.class.len() == b.class.len()
                && a.tag_name is Some && b.tag_name is None) ==> b_below_a
            &&& ((a.id is Some) == (b.id is Some) && a.class.len() == b.class.len() && (
            a.tag_name is Some) == (b.tag_name is Some)) ==> ra == rb
        }),
{
}

impl Selector {
    pub fn specificity(&self) -> (r: Specificity)
        ensures
            rank(r) == selector_rank(self@),
    {
        let Selector::Simple(ref simple) = *self;
        let a: usize = if simple.id.is_some() { 1 } else { 0 };
        let b = simple.class.len();
        let c: usize = if simple.tag_name.is_some() { 1 } else { 0 };
        (a, b, c)
    }
}

// ---------------------------------------------------------------------------
// The grammar
// ---------------------------------------------------------------------------

/// How reading a style sheet can fail: with an error, or where the reader
/// would slice a string off a char boundary and panic.
pub enum CssFail {
    Error(SErr),
    Crash,
}

pub type CRes<T> = Result<(T, nat), CssFail>;

pub open spec fn fail(message: Seq<char>, at: nat) -> CssFail {
    CssFail::Error(serr(message, at))
}

pub open spec fn is_ident_char(c: char) -> bool {
    ||| ('a' <= c && c <= 'z')
    ||| ('A' <= c && c <= 'Z')
    ||| ('0' <= c && c <= '9')
    ||| c == '-'
    ||| c == '_'
}

pub open spec fn ident_char() -> spec_fn(char) -> bool {
    |c: char| is_ident_char(c)
}

pub open spec fn is_float_char(c: char) -> bool {
    ('0' <= c && c <= '9') || c == '.'
}

pub open spec fn float_char() -> spec_fn(char) -> bool {
    |c: char| is_float_char(c)
}

pub open spec fn ws_end(s: Seq<char>, i: nat) -> nat {
    take_while_end(s, i, whitespace())
}

pub open spec fn msg_selector_char(c: char) -> Seq<char> {
    "Unexpected character "@ + debug_char_text(c) + " in selector list"@
}

pub open spec fn msg_invalid_float(t: Seq<char>) -> Seq<char> {
    "Invalid float: "@ + debug_text(t)
}

pub open spec fn msg_unit(t: Seq<char>) -> Seq<char> {
    "Unrecognized unit: "@ + debug_text(t)
}

pub open spec fn msg_hex_end() -> Seq<char> {
    "Unexpected end of input in hex color"@
}

pub open spec fn msg_hex(t: Seq<char>) -> Seq<char> {
    "Invalid hex pair: "@ + debug_text(t)
}

pub open spec fn msg_identifier() -> Seq<char> {
    "Expected identifier"@
}

pub open spec fn spec_ident(s: Seq<char>, i: nat) -> CRes<Seq<char>> {
    let j = take_while_end(s, i, ident_char());
    if j == i {
        Err(fail(msg_identifier(), j))
    } else {
        Ok((s.subrange(i as int, j as int), j))
    }
}

pub proof fn lemma_ident_bounds(s: Seq<char>, i: nat)
    ensures
        spec_ident(s, i) matches Ok((_, j)) ==> i < j <= s.len(),
{
    lemma_take_while_end_ge(s, i, ident_char());
    if i <= s.len() {
        lemma_take_while_end(s, i, ident_char());
    }
}

pub open spec fn spec_expect_char(s: Seq<char>, i: nat, e: char) -> CRes<()> {
    if i >= s.len() {
        Err(fail(msg_end_of_input(), i))
    } else if s[i as int] != e {
        Err(fail(msg_expected_got(e, s[i as int]), i + 1))
    } else {
        Ok(((), i + 1))
    }
}

pub open spec fn empty_selector() -> SSelector {
    SSelector { tag_name: None, id: None, class: Seq::empty() }
}

/// The parts of a simple selector from index `i` on, added to `sel`.
pub open spec fn spec_simple(s: Seq<char>, i: nat, sel: SSelector) -> CRes<SSelector>
    decreases s.len() - i,
{
    if i >= s.len() {
        Ok((sel, i))
    } else {
        let c = s[i as int];
        if c == '#' {
            match spec_ident(s, i + 1) {
                Err(e) => Err(e),
                Ok((id, j)) => {
                    proof {
                        lemma_ident_bounds(s, i + 1);
                    }
                    spec_simple(s, j, SSelector { id: Some(id), ..sel })
                },
            }
        } else if c == '.' {
            match spec_ident(s, i + 1) {
                Err(e) => Err(e),
                Ok((class, j)) => {
                    proof {
                        lemma_ident_bounds(s, i + 1);
                    }
                    spec_simple(s, j, SSelector { class: sel.class.push(class), ..sel })
                },
            }
        } else if c == '*' {
            spec_simple(s, i + 1, sel)
        } else if is_ident_char(c) {
            match spec_ident(s, i) {
                Err(e) => Err(e),
                Ok((tag, j)) => {
                    proof {
                        lemma_ident_bounds(s, i);
                    }
                    spec_simple(s, j, SSelector { tag_name: Some(tag), ..sel })
                },
            }
        } else {
            Ok((sel, i))
        }
    }
}

pub proof fn lemma_simple_bounds(s: Seq<char>, i: nat, sel: SSelector)
    requires
        i <= s.len(),
    ensures
        spec_simple(s, i, sel) matches Ok((_, j)) ==> i <= j <= s.len(),
    decreases s.len() - i,
{
    if i < s.len() {
        let c = s[i as int];
        if c == '#' || c == '.' {
            lemma_ident_bounds(s, i + 1);
            if let Ok((x, j)) = spec_ident(s, i + 1) {
                if c == '#' {
                    lemma_simple_bounds(s, j, SSelector { id: Some(x), ..sel });
                } else {
                    lemma_simple_bounds(s, j, SSelector { class: sel.class.push(x), ..sel });
                }
            }
        } else if c == '*' {
            lemma_simple_bounds(s, i + 1, sel);
        } else if is_ident_char(c) {
            lemma_ident_bounds(s, i);
            if let Ok((x, j)) = spec_ident(s, i) {
                lemma_simple_bounds(s, j, SSelector { tag_name: Some(x), ..sel });
            }
        }
    }
}

/// The selector list from index `i` to the `{` that ends it, after `acc`,
/// in the order written.
pub open spec fn spec_selectors(s: Seq<char>, i: nat, acc: Seq<SSelector>) -> CRes<
    Seq<SSelector>,
>
    decreases s.len() - i,
{
    if i > s.len() {
        Err(fail(msg_end_of_input(), i))
    } else {
        match spec_simple(s, i, empty_selector()) {
            Err(e) => Err(e),
            Ok((sel, j)) => {
                let k = ws_end(s, j);
                let acc2 = acc.push(sel);
                if k >= s.len() {
                    Err(fail(msg_end_of_input(), k))
                } else if s[k as int] == ',' {
                    proof {
                        lemma_simple_bounds(s, i, empty_selector());
                        lemma_take_while_end_ge(s, j, whitespace());
                        lemma_take_while_end(s, k + 1, whitespace());
                    }
                    spec_selectors(s, ws_end(s, k + 1), acc2)
                } else if s[k as int] == '{' {
                    Ok((acc2, k))
                } else {
                    Err(fail(msg_selector_char(s[k as int]), k))
                }
            },
        }
    }
}

/// The selector list from index `i`, sorted by specificity.
pub open spec fn spec_parse_selectors(s: Seq<char>, i: nat) -> CRes<Seq<SSelector>> {
    match spec_selectors(s, i, Seq::empty()) {
        Err(e) => Err(e),
        Ok((v, k)) => Ok((sort_by_key(v, selector_key()), k)),
    }
}

pub proof fn lemma_selectors_bounds(s: Seq<char>, i: nat, acc: Seq<SSelector>)
    ensures
        spec_selectors(s, i, acc) matches Ok((_, k)) ==> i <= k < s.len() && s[k as int] == '{',
    decreases s.len() - i,
{
    if i <= s.len() {
        lemma_simple_bounds(s, i, empty_selector());
        if let Ok((sel, j)) = spec_simple(s, i, empty_selector()) {
            lemma_take_while_end(s, j, whitespace());
            let k = ws_end(s, j);
            if k < s.len() && s[k as int] == ',' {
                lemma_take_while_end(s, k + 1, whitespace());
                lemma_selectors_bounds(s, ws_end(s, k + 1), acc.push(sel));
            }
        }
    }
}

/// The number of `.` in `t`.
pub open spec fn dot_count(t: Seq<char>) -> nat
    decreases t.len(),
{
    if t.len() == 0 {
        0
    } else {
        dot_count(t.drop_last()) + if t.last() == '.' { 1nat } else { 0nat }
    }
}

/// A run of digits and dots reads as a number: it has a digit and at most
/// one dot.
pub open spec fn float_literal_ok(t: Seq<char>) -> bool {
    dot_count(t) <= 1 && dot_count(t) < t.len()
}

pub open spec fn spec_float(s: Seq<char>, i: nat) -> CRes<Seq<char>> {
    let j = take_while_end(s, i, float_char());
    let t = s.subrange(i as int, j as int);
    if float_literal_ok(t) {
        Ok((t, j))
    } else {
        Err(fail(msg_invalid_float(t), j))
    }
}

pub open spec fn ascii_lower(c: char) -> char {
    if 'A' <= c && c <= 'Z' {
        ((c as u32) + 32) as char
    } else {
        c
    }
}

pub open spec fn lower(t: Seq<char>) -> Seq<char> {
    t.map_values(|c: char| ascii_lower(c))
}

pub open spec fn spec_unit(s: Seq<char>, i: nat) -> CRes<Unit> {
    match spec_ident(s, i) {
        Err(e) => Err(e),
        Ok((u, j)) => if lower(u) == "px"@ {
            Ok((Unit::Px, j))
        } else {
            Err(fail(msg_unit(lower(u)), j))
        },
    }
}

pub open spec fn spec_length(s: Seq<char>, i: nat) -> CRes<SValue> {
    match spec_float(s, i) {
        Err(e) => Err(e),
        Ok((t, j)) => match spec_unit(s, j) {
            Err(e) => Err(e),
            Ok((u, k)) => Ok((SValue::Length(t, u), k)),
        },
    }
}

pub open spec fn hex_digit(c: char) -> Option<int> {
    if '0' <= c && c <= '9' {
        Some(c as int - '0' as int)
    } else if 'a' <= c && c <= 'f' {
        Some(c as int - 'a' as int + 10)
    } else if 'A' <= c && c <= 'F' {
        Some(c as int - 'A' as int + 10)
    } else {
        None
    }
}

/// What `u8::from_str_radix` reads, in base 16, from a string of two
/// one-byte chars: two hex digits, or `+` and one hex digit.
pub open spec fn hex_pair(c0: char, c1: char) -> Option<int> {
    if c0 == '+' {
        hex_digit(c1)
    } else {
        match (hex_digit(c0), hex_digit(c1)) {
            (Some(a), Some(b)) => Some(16 * a + b),
            _ => None,
        }
    }
}

/// A color channel: the next two bytes of the text, read as hex. Where the
/// second byte is not the end of a char, the reader panics.
pub open spec fn spec_hex_pair(s: Seq<char>, i: nat) -> CRes<u8> {
    if i > s.len() || utf8_len(s.subrange(i as int, s.len() as int)) < 2 {
        Err(fail(msg_hex_end(), i))
    } else {
        let c0 = s[i as int];
        if char_width(c0) == 1 {
            let c1 = s[(i + 1) as int];
            if char_width(c1) != 1 {
                Err(CssFail::Crash)
            } else {
                match hex_pair(c0, c1) {
                    Some(v) => Ok((v as u8, i + 2)),
                    None => Err(fail(msg_hex(seq![c0, c1]), i + 2)),
                }
            }
        } else if char_width(c0) == 2 {
            Err(fail(msg_hex(seq![c0]), i + 1))
        } else {
            Err(CssFail::Crash)
        }
    }
}

pub open spec fn spec_color(s: Seq<char>, i: nat) -> CRes<SValue> {
    match spec_expect_char(s, i, '#') {
        Err(e) => Err(e),
        Ok((_, a)) => match spec_hex_pair(s, a) {
            Err(e) => Err(e),
            Ok((r, b)) => match spec_hex_pair(s, b) {
                Err(e) => Err(e),
                Ok((g, c)) => match spec_hex_pair(s, c) {
                    Err(e) => Err(e),
                    Ok((bl, d)) => Ok((SValue::ColorValue(Color { r, g, b: bl, a: 255 }), d)),
                },
            },
        },
    }
}

pub open spec fn spec_value(s: Seq<char>, i: nat) -> CRes<SValue> {
    if i >= s.len() {
        Err(fail(msg_end_of_input(), i))
    } else if '0' <= s[i as int] && s[i as int] <= '9' {
        spec_length(s, i)
    } else if s[i as int] == '#' {
        spec_color(s, i)
    } else {
        match spec_ident(s, i) {
            Err(e) => Err(e),
            Ok((k, j)) => Ok((SValue::Keyword(k), j)),
        }
    }
}

pub open spec fn spec_declaration(s: Seq<char>, i: nat) -> CRes<SDeclaration> {
    match spec_ident(s, i) {
        Err(e) => Err(e),
        Ok((name, j)) => match spec_expect_char(s, ws_end(s, j), ':') {
            Err(e) => Err(e),
            Ok((_, b)) => match spec_value(s, ws_end(s, b)) {
                Err(e) => Err(e),
                Ok((value, d)) => match spec_expect_char(s, ws_end(s, d), ';') {
                    Err(e) => Err(e),
                    Ok((_, f)) => Ok((SDeclaration { name, value }, f)),
                },
            },
        },
    }
}

pub proof fn lemma_value_advances(s: Seq<char>, i: nat)
    ensures
        spec_value(s, i) matches Ok((_, j)) ==> i < j,
{
    lemma_ident_bounds(s, i);
    if i < s.len() && '0' <= s[i as int] && s[i as int] <= '9' {
        lemma_take_while_end_ge(s, i, float_char());
        if let Ok((_, j)) = spec_float(s, i) {
            lemma_ident_bounds(s, j);
        }
    }
}

pub proof fn lemma_declaration_advances(s: Seq<char>, i: nat)
    ensures
        spec_declaration(s, i) matches Ok((_, j)) ==> i < j <= s.len(),
{
    lemma_ident_bounds(s, i);
    if let Ok((name, j)) = spec_ident(s, i) {
        lemma_take_while_end_ge(s, j, whitespace());
        if let Ok((_, b)) = spec_expect_char(s, ws_end(s, j), ':') {
            lemma_take_while_end_ge(s, b, whitespace());
            lemma_value_advances(s, ws_end(s, b));
            if let Ok((_, d)) = spec_value(s, ws_end(s, b)) {
                lemma_take_while_end_ge(s, d, whitespace());
            }
        }
    }
}

/// The declarations from index `i` to the closing `}`, after `acc`.
pub open spec fn spec_declarations(s: Seq<char>, i: nat, acc: Seq<SDeclaration>) -> CRes<
    Seq<SDeclaration>,
>
    decreases s.len() - i,
{
    let k = ws_end(s, i);
    if k >= s.len() {
        Err(fail(msg_end_of_input(), k))
    } else if s[k as int] == '}' {
        Ok((acc, k + 1))
    } else {
        match spec_declaration(s, k) {
            Err(e) => Err(e),
            Ok((d, j)) => {
                proof {
                    lemma_take_while_end_ge(s, i, whitespace());
                    lemma_declaration_advances(s, k);
                }
                spec_declarations(s, j, acc.push(d))
            },
        }
    }
}

pub proof fn lemma_declarations_bounds(s: Seq<char>, i: nat, acc: Seq<SDeclaration>)
    ensures
        spec_declarations(s, i, acc) matches Ok((_, j)) ==> i < j <= s.len(),
    decreases s.len() - i,
{
    lemma_take_while_end_ge(s, i, whitespace());
    let k = ws_end(s, i);
    if k < s.len() && s[k as int] != '}' {
        lemma_declaration_advances(s, k);
        if let Ok((d, j)) = spec_declaration(s, k) {
            lemma_declarations_bounds(s, j, acc.push(d));
        }
    }
}

proof fn lemma_declarations_acc(s: Seq<char>, i: nat, acc: Seq<SDeclaration>)
    ensures
        match (spec_declarations(s, i, acc), spec_declarations(s, i, Seq::empty())) {
            (Ok((ds, e)), Ok((rest, f))) => ds == acc + rest && e == f,
            (Err(x), Err(y)) => x == y,
            _ => false,
        },
    decreases s.len() - i,
{
    lemma_take_while_end_ge(s, i, whitespace());
    let k = ws_end(s, i);
    if k >= s.len() {
    } else if s[k as int] == '}' {
        assert(acc + Seq::<SDeclaration>::empty() =~= acc);
    } else {
        lemma_declaration_advances(s, k);
        if let Ok((d, j)) = spec_declaration(s, k) {
            lemma_declarations_acc(s, j, acc.push(d));
            lemma_declarations_acc(s, j, seq![d]);
            assert(Seq::<SDeclaration>::empty().push(d) =~= seq![d]);
            if let Ok((rest, _)) = spec_declarations(s, j, Seq::empty()) {
                assert(acc.push(d) + rest =~= acc + (seq![d] + rest));
            }
        }
    }
}

/// The declarations of a block are read in source order: what is read
/// from index `i` follows whatever was read before it, and the first
/// `name: value;` there comes before the rest of the block's declarations.
pub proof fn lemma_declarations_in_source_order(s: Seq<char>, i: nat, acc: Seq<SDeclaration>)
    ensures
        match (spec_declarations(s, i, acc), spec_declarations(s, i, Seq::empty())) {
            (Ok((ds, e)), Ok((rest, f))) => ds == acc + rest && e == f,
            (Err(x), Err(y)) => x == y,
            _ => false,
        },
        ws_end(s, i) < s.len() && s[ws_end(s, i) as int] != '}' ==> match spec_declaration(
            s,
            ws_end(s, i),
        ) {
            Ok((d, j)) => match (
                spec_declarations(s, i, Seq::empty()),
                spec_declarations(s, j, Seq::empty()),
            ) {
                (Ok((ds, e)), Ok((rest, f))) => ds == seq![d] + rest && e == f,
                (Err(x), Err(y)) => x == y,
                _ => false,
            },
            Err(x) => spec_declarations(s, i, Seq::empty()) == Err::<
                (Seq<SDeclaration>, nat),
                CssFail,
            >(x),
        },
{
    lemma_declarations_acc(s, i, acc);
    let k = ws_end(s, i);
    if k < s.len() && s[k as int] != '}' {
        if let Ok((d, j)) = spec_declaration(s, k) {
            lemma_declarations_acc(s, j, seq![d]);
            assert(Seq::<SDeclaration>::empty().push(d) =~= seq![d]);
        }
    }
}

pub open spec fn spec_parse_declarations(s: Seq<char>, i: nat) -> CRes<Seq<SDeclaration>> {
    match spec_expect_char(s, i, '{') {
        Err(e) => Err(e),
        Ok((_, k)) => spec_declarations(s, k, Seq::empty()),
    }
}

pub open spec fn spec_rule(s: Seq<char>, i: nat) -> CRes<SRule> {
    match spec_parse_selectors(s, i) {
        Err(e) => Err(e),
        Ok((selectors, k)) => match spec_parse_declarations(s, k) {
            Err(e) => Err(e),
            Ok((declarations, j)) => Ok((SRule { selectors, declarations }, j)),
        },
    }
}

pub proof fn lemma_rule_advances(s: Seq<char>, i: nat)
    ensures
        spec_rule(s, i) matches Ok((_, j)) ==> i < j <= s.len(),
{
    lemma_selectors_bounds(s, i, Seq::empty());
    if let Ok((_, k)) = spec_parse_selectors(s, i) {
        if let Ok((_, m)) = spec_expect_char(s, k, '{') {
            lemma_declarations_bounds(s, m, Seq::empty());
        }
    }
}

/// The rules from index `i` to the end of the text, after `acc`.
pub open spec fn spec_rules(s: Seq<char>, i: nat, acc: Seq<SRule>) -> CRes<Seq<SRule>>
    decreases s.len() - i,
{
    let k = ws_end(s, i);
    if k >= s.len() {
        Ok((acc, k))
    } else {
        match spec_rule(s, k) {
            Err(e) => Err(e),
            Ok((r, j)) => {
                proof {
                    lemma_take_while_end_ge(s, i, whitespace());
                    lemma_rule_advances(s, k);
                }
                spec_rules(s, j, acc.push(r))
            },
        }
    }
}

/// What a source text reads as: the rules of a style sheet, an error, or a
/// panic.
pub open spec fn spec_parse_stylesheet(s: Seq<char>) -> Result<Seq<SRule>, CssFail> {
    match spec_rules(s, 0, Seq::empty()) {
        Err(e) => Err(e),
        Ok((rules, _)) => Ok(rules),
    }
}

pub open spec fn rules_sorted(rules: Seq<SRule>) -> bool {
    forall|k: int| 0 <= k < rules.len() ==> sorted_by(#[trigger] rules[k].selectors, selector_key())
}

proof fn lemma_rules_sorted(s: Seq<char>, i: nat, acc: Seq<SRule>)
    requires
        rules_sorted(acc),
    ensures
        spec_rules(s, i, acc) matches Ok((rules, _)) ==> rules_sorted(rules),
    decreases s.len() - i,
{
    lemma_take_while_end_ge(s, i, whitespace());
    let k = ws_end(s, i);
    if k < s.len() {
        if let Ok((r, j)) = spec_rule(s, k) {
            lemma_rule_advances(s, k);
            if let Ok((v, _)) = spec_selectors(s, k, Seq::empty()) {
                lemma_sort_sorted(v, selector_key());
            }
            let acc2 = acc.push(r);
            assert forall|m: int| 0 <= m < acc2.len() implies sorted_by(
                #[trigger] acc2[m].selectors,
                selector_key(),
            ) by {
                if m < acc.len() {
                    assert(acc2[m] == acc[m]);
                }
            }
            lemma_rules_sorted(s, j, acc2);
        }
    }
}

/// Each rule of a style sheet lists its selectors least specific first.
pub proof fn lemma_parsed_selectors_sorted(s: Seq<char>)
    ensures
        spec_parse_stylesheet(s) matches Ok(rules) ==> rules_sorted(rules),
{
    lemma_rules_sorted(s, 0, Seq::empty());
}

/// Each rule of a style sheet lists its selectors in tuple order of their
/// specificities: no selector is less specific, as a tuple, than one
/// listed before it.
pub proof fn lemma_parsed_selectors_in_tuple_order(s: Seq<char>)
    ensures
        spec_parse_stylesheet(s) matches Ok(rules) ==> forall|r: int, p: int, q: int|
            0 <= r < rules.len() && 0 <= p < q < rules[r].selectors.len() ==> !({
                let a = selector_rank(#[trigger] rules[r].selectors[q]);
                let b = selector_rank(#[trigger] rules[r].selectors[p]);
                a.0 < b.0 || (a.0 == b.0 && a.1 < b.1) || (a.0 == b.0 && a.1 == b.1 && a.2 < b.2)
            }),
{
    lemma_parsed_selectors_sorted(s);
    if let Ok(rules) = spec_parse_stylesheet(s) {
        assert forall|r: int, p: int, q: int|
            0 <= r < rules.len() && 0 <= p < q < rules[r].selectors.len() implies !({
            let a = selector_rank(#[trigger] rules[r].selectors[q]);
            let b = selector_rank(#[trigger] rules[r].selectors[p]);
            a.0 < b.0 || (a.0 == b.0 && a.1 < b.1) || (a.0 == b.0 && a.1 == b.1 && a.2 < b.2)
        }) by {
            let sels = rules[r].selectors;
            assert(sorted_by(sels, selector_key()));
            let a = selector_rank(sels[q]);
            let b = selector_rank(sels[p]);
            assert(crate::order::rank_le(selector_key()(sels[p]), selector_key()(sels[q])));
            if a.0 < b.0 || (a.0 == b.0 && a.1 < b.1) || (a.0 == b.0 && a.1 == b.1 && a.2 < b.2) {
                crate::order::lemma_rank_le_is_tuple_order(a, b);
            }
        }
    }
}

// ---------------------------------------------------------------------------
// The reader
// ---------------------------------------------------------------------------

/// The entry point: reads a style sheet. The reader would panic on the
/// inputs that `requires` leaves out.
pub fn parse(source: String) -> (r: ParserResult<Stylesheet>)
    requires
        !(spec_parse_stylesheet(source@) matches Err(CssFail::Crash)),
    ensures
        match (r, spec_parse_stylesheet(source@)) {
            (Ok(sheet), Ok(rules)) => sheet@ == rules,
            (Err(e), Err(CssFail::Error(se))) => e.models(source@, se),
            _ => false,
        },
{
    match parse_checked(source) {
        Some(r) => r,
        None => Err(ParserError { message: String::new(), pos: 0 }),
    }
}

/// Reads a style sheet, or gives `None` where the reader would panic.
pub fn parse_checked(source: String) -> (r: Option<ParserResult<Stylesheet>>)
    ensures
        match (r, spec_parse_stylesheet(source@)) {
            (Some(Ok(sheet)), Ok(rules)) => sheet@ == rules,
            (Some(Err(e)), Err(CssFail::Error(se))) => e.models(source@, se),
            (None, Err(CssFail::Crash)) => true,
            _ => false,
        },
{
    let ghost s = source@;
    let mut css = CssParser { parser: Parser::new(source) };
    match css.parse_rules() {
        Ok(rules) => Some(Ok(Stylesheet { rules })),
        Err(Failure::Error(e)) => Some(Err(e)),
        Err(Failure::Crash) => None,
    }
}

enum Failure {
    Error(ParserError),
    Crash,
}

impl Failure {
    spec fn models(self, s: Seq<char>, f: CssFail) -> bool {
        match (self, f) {
            (Failure::Error(e), CssFail::Error(se)) => e.models(s, se),
            (Failure::Crash, CssFail::Crash) => true,
            _ => false,
        }
    }
}

struct CssParser {
    parser: Parser,
}

fn is_ident_char_exec(c: char) -> (r: bool)
    ensures
        r == is_ident_char(c),
{
    ('a' <= c && c <= 'z') || ('A' <= c && c <= 'Z') || ('0' <= c && c <= '9') || c == '-' || c
        == '_'
}

fn is_float_char_exec(c: char) -> (r: bool)
    ensures
        r == is_float_char(c),
{
    ('0' <= c && c <= '9') || c == '.'
}

fn ascii_lower_exec(c: char) -> (r: char)
    ensures
        r == ascii_lower(c),
{
    if 'A' <= c && c <= 'Z' {
        let u = c as u8;
        (u + 32) as char
    } else {
        c
    }
}

/// `t` with ASCII capitals made lower case.
fn to_ascii_lowercase(t: &str) -> (r: String)
    ensures
        r@ == lower(t@),
{
    let chars = crate::parser::chars_of(t);
    let mut r = String::new();
    let mut i: usize = 0;
    while i < chars.len()
        invariant
            i <= chars@.len(),
            chars@ == t@,
            r@ == lower(t@.take(i as int)),
        decreases chars@.len() - i,
    {
        push_char(&mut r, ascii_lower_exec(chars[i]));
        assert(lower(t@.take(i + 1)) =~= lower(t@.take(i as int)).push(ascii_lower(chars@[i as int])));
        i = i + 1;
    }
    assert(t@.take(i as int) =~= t@);
    r
}

fn hex_digit_exec(c: char) -> (r: Option<u8>)
    ensures
        match (r, hex_digit(c)) {
            (Some(v), Some(w)) => v == w,
            (None, None) => true,
            _ => false,
        },
{
    if '0' <= c && c <= '9' {
        Some((c as u8) - ('0' as u8))
    } else if 'a' <= c && c <= 'f' {
        Some((c as u8) - ('a' as u8) + 10)
    } else if 'A' <= c && c <= 'F' {
        Some((c as u8) - ('A' as u8) + 10)
    } else {
        None
    }
}

fn hex_pair_exec(c0: char, c1: char) -> (r: Option<u8>)
    ensures
        match (r, hex_pair(c0, c1)) {
            (Some(v), Some(w)) => v == w,
            (None, None) => true,
            _ => false,
        },
{
    if c0 == '+' {
        hex_digit_exec(c1)
    } else {
        match (hex_digit_exec(c0), hex_digit_exec(c1)) {
            (Some(a), Some(b)) => Some(16 * a + b),
            _ => None,
        }
    }
}

/// The number of `.` in `t`, and whether `t` reads as a number.
fn float_ok(t: &str) -> (r: bool)
    ensures
        r == float_literal_ok(t@),
{
    let chars = crate::parser::chars_of(t);
    let mut dots: usize = 0;
    let mut i: usize = 0;
    while i < chars.len()
        invariant
            i <= chars@.len(),
            chars@ == t@,
            dots == dot_count(t@.take(i as int)),
            dots <= i,
        decreases chars@.len() - i,
    {
        assert(t@.take(i + 1).drop_last() =~= t@.take(i as int));
        if chars[i] == '.' {
            dots = dots + 1;
        }
        i = i + 1;
    }
    assert(t@.take(i as int) =~= t@);
    dots <= 1 && dots < chars.len()
}

impl CssParser {
    spec fn text(&self) -> Seq<char> {
        self.parser.text()
    }

    spec fn at(&self) -> nat {
        self.parser.cursor()
    }

    fn next(&self) -> (r: Result<char, Failure>)
        requires
            self.parser.wf(),
        ensures
            match r {
                Ok(c) => self.at() < self.text().len() && c == self.text()[self.at() as int],
                Err(f) => self.at() >= self.text().len() && f.models(
                    self.text(),
                    fail(msg_end_of_input(), self.at()),
                ),
            },
    {
        match self.parser.next() {
            Ok(c) => Ok(c),
            Err(e) => Err(Failure::Error(e)),
        }
    }

    fn consume(&mut self) -> (r: Result<char, Failure>)
        requires
            old(self).parser.wf(),
            old(self).at() < old(self).text().len(),
        ensures
            r == Ok::<char, Failure>(old(self).text()[old(self).at() as int]),
            old(self).parser.moved_to(&final(self).parser, old(self).at() + 1),
    {
        match self.parser.consume() {
            Ok(c) => Ok(c),
            Err(e) => Err(Failure::Error(e)),
        }
    }

    fn ws(&mut self)
        requires
            old(self).parser.wf(),
        ensures
            old(self).parser.moved_to(&final(self).parser, ws_end(old(self).text(), old(self).at())),
    {
        let _ = self.parser.consume_whitespace();
    }

    fn expect_char(&mut self, e: char) -> (r: Result<(), Failure>)
        requires
            old(self).parser.wf(),
        ensures
            match (r, spec_expect_char(old(self).text(), old(self).at(), e)) {
                (Ok(_), Ok((_, j))) => old(self).parser.moved_to(&final(self).parser, j),
                (Err(f), Err(sf)) => f.models(old(self).text(), sf),
                _ => false,
            },
    {
        match self.parser.expect_char(e) {
            Ok(()) => Ok(()),
            Err(x) => Err(Failure::Error(x)),
        }
    }

    fn error(&self, message: String) -> (f: Failure)
        requires
            self.parser.wf(),
        ensures
            f.models(self.text(), fail(message@, self.at())),
    {
        Failure::Error(self.parser.err(message))
    }

    fn parse_identifier(&mut self) -> (r: Result<String, Failure>)
        requires
            old(self).parser.wf(),
        ensures
            match (r, spec_ident(old(self).text(), old(self).at())) {
                (Ok(v), Ok((sv, j))) => v@ == sv && old(self).parser.moved_to(&final(self).parser, j),
                (Err(f), Err(sf)) => f.models(old(self).text(), sf),
                _ => false,
            },
    {
        let ghost s = self.text();
        let ghost i = self.at();
        let ident = match self.parser.consume_while(is_ident_char_exec) {
            Ok(v) => v,
            Err(e) => return Err(Failure::Error(e)),
        };
        proof {
            lemma_consumed(is_ident_char_exec, ident_char(), s, i, self.at());
        }
        if ident.as_str().is_empty() {
            return Err(self.error(String::from_str("Expected identifier")));
        }
        Ok(ident)
    }

    fn parse_simple_selector(&mut self) -> (r: Result<SimpleSelector, Failure>)
        requires
            old(self).parser.wf(),
        ensures
            match (r, spec_simple(old(self).text(), old(self).at(), empty_selector())) {
                (Ok(v), Ok((sv, j))) => v@ == sv && old(self).parser.moved_to(&final(self).parser, j),
                (Err(f), Err(sf)) => f.models(old(self).text(), sf),
                _ => false,
            },
    {
        let ghost s = self.text();
        let ghost start = self.at();
        let mut selector = SimpleSelector { tag_name: None, id: None, class: Vec::new() };
        proof {
            self.parser.lemma_wf();
            assert(seq_views(selector.class@) =~= Seq::<Seq<char>>::empty());
            assert(selector@ =~= empty_selector());
        }
        while !self.parser.eof()
            invariant
                self.parser.wf(),
                s == old(self).text(),
                start == old(self).at(),
                old(self).parser.moved_to(&self.parser, self.at()),
                start <= self.at() <= s.len(),
                spec_simple(s, start, empty_selector()) == spec_simple(s, self.at(), selector@),
            ensures
                self.parser.wf(),
                old(self).parser.moved_to(&self.parser, self.at()),
                spec_simple(s, start, empty_selector()) == Ok::<(SSelector, nat), CssFail>(
                    (selector@, self.at()),
                ),
            decreases s.len() - self.at(),
        {
            let ghost i = self.at();
            let c = self.next()?;
            if c == '#' {
                self.consume()?;
                let id = self.parse_identifier()?;
                proof {
                    lemma_ident_bounds(s, i + 1);
                }
                selector.id = Some(id);
                assert(selector@ =~= SSelector { id: Some(id@), ..selector@ });
            } else if c == '.' {
                self.consume()?;
                let class = self.parse_identifier()?;
                proof {
                    lemma_ident_bounds(s, i + 1);
                }
                let ghost old_sel = selector@;
                let ghost old_class = selector.class@;
                selector.class.push(class);
                assert(seq_views(selector.class@) =~= seq_views(old_class).push(class@));
                assert(selector@ =~= SSelector { class: old_sel.class.push(class@), ..old_sel });
            } else if c == '*' {
                self.consume()?;
            } else if is_ident_char_exec(c) {
                let tag = self.parse_identifier()?;
                proof {
                    lemma_ident_bounds(s, i);
                }
                selector.tag_name = Some(tag);
                assert(selector@ =~= SSelector { tag_name: Some(tag@), ..selector@ });
            } else {
                break;
            }
        }
        Ok(selector)
    }

    fn parse_selectors(&mut self) -> (r: Result<Vec<Selector>, Failure>)
        requires
            old(self).parser.wf(),
        ensures
            match (r, spec_parse_selectors(old(self).text(), old(self).at())) {
                (Ok(v), Ok((sv, j))) => selectors_view(v@) == sv && old(self).parser.moved_to(
                    &final(self).parser,
                    j,
                ),
                (Err(f), Err(sf)) => f.models(old(self).text(), sf),
                _ => false,
            },
    {
        let ghost s = self.text();
        let ghost start = self.at();
        let mut keyed: Vec<(Specificity, Selector)> = Vec::new();
        proof {
            self.parser.lemma_wf();
            assert(keyed_view(keyed@) =~= Seq::<SSelector>::empty());
        }
        loop
            invariant_except_break
                spec_selectors(s, start, Seq::empty()) == spec_selectors(
                    s,
                    self.at(),
                    keyed_view(keyed@),
                ),
            invariant
                self.parser.wf(),
                s == old(self).text(),
                start == old(self).at(),
                old(self).parser.moved_to(&self.parser, self.at()),
                start <= self.at() <= s.len(),
                forall|k: int|
                    0 <= k < keyed@.len() ==> rank((#[trigger] keyed@[k]).0) == selector_rank(
                        keyed@[k].1@,
                    ),
            ensures
                self.parser.wf(),
                old(self).parser.moved_to(&self.parser, self.at()),
                forall|k: int|
                    0 <= k < keyed@.len() ==> rank((#[trigger] keyed@[k]).0) == selector_rank(
                        keyed@[k].1@,
                    ),
                spec_selectors(s, start, Seq::empty()) == Ok::<(Seq<SSelector>, nat), CssFail>(
                    (keyed_view(keyed@), self.at()),
                ),
            decreases s.len() - self.at(),
        {
            let ghost i = self.at();
            let simple = self.parse_simple_selector()?;
            let ghost j = self.at();
            proof {
                lemma_simple_bounds(s, i, empty_selector());
            }
            let sel = Selector::Simple(simple);
            let spec = sel.specificity();
            let ghost old_keyed = keyed@;
            keyed.push((spec, sel));
            proof {
                assert(keyed_view(keyed@) =~= keyed_view(old_keyed).push(keyed@.last().1@));
            }
            self.ws();
            proof {
                lemma_take_while_end(s, j, whitespace());
            }
            let c = self.next()?;
            if c == ',' {
                self.consume()?;
                let ghost k1 = self.at();
                self.ws();
                proof {
                    lemma_take_while_end(s, k1, whitespace());
                }
            } else if c == '{' {
                break;
            } else {
                let m = concat("Unexpected character ", debug_char(c).as_str());
                let m = concat(m.as_str(), " in selector list");
                return Err(self.error(m));
            }
        }
        let ghost unsorted = keyed@;
        let sorted = sort_by_specificity(keyed);
        let mut selectors: Vec<Selector> = Vec::new();
        let mut rest = sorted;
        let ghost all = rest@;
        proof {
            let f = |p: (Specificity, Selector)| p.1@;
            lemma_sort_map(unsorted, f, pair_key(), selector_key());
            assert(keyed_view(unsorted) =~= unsorted.map_values(f));
        }
        while rest.len() > 0
            invariant
                selectors@.len() + rest@.len() == all.len(),
                rest@ == all.skip(selectors@.len() as int),
                selectors_view(selectors@) == keyed_view(all.take(selectors@.len() as int)),
            decreases rest.len(),
        {
            let ghost n: int = selectors@.len() as int;
            let (_, sel) = rest.remove(0);
            let ghost old_sel = selectors@;
            selectors.push(sel);
            proof {
                assert(all.take(n + 1) =~= all.take(n).push(all[n]));
                assert(keyed_view(all.take(n + 1)) =~= keyed_view(all.take(n)).push(
                    all[n].1@,
                ));
                assert(selectors_view(selectors@) =~= selectors_view(old_sel).push(sel@));
                assert(rest@ =~= all.skip(n + 1));
            }
        }
        proof {
            assert(all.take(all.len() as int) =~= all);
        }
        Ok(selectors)
    }

    fn parse_hex_pair(&mut self) -> (r: Result<u8, Failure>)
        requires
            old(self).parser.wf(),
        ensures
            match (r, spec_hex_pair(old(self).text(), old(self).at())) {
                (Ok(v), Ok((sv, j))) => v == sv && old(self).parser.moved_to(&final(self).parser, j),
                (Err(f), Err(sf)) => f.models(old(self).text(), sf),
                _ => false,
            },
    {
        let ghost s = self.text();
        let ghost i = self.at();
        proof {
            self.parser.lemma_wf();
        }
        if self.parser.bytes_left() < 2 {
            return Err(self.error(String::from_str("Unexpected end of input in hex color")));
        }
        proof {
            lemma_rest_width(s, i as int);
        }
        let c0 = self.next()?;
        let w0 = char_len_utf8(c0);
        if w0 == 1 {
            let c1 = match self.parser.peek(1) {
                Some(c) => c,
                None => return Err(Failure::Crash),
            };
            if char_len_utf8(c1) != 1 {
                return Err(Failure::Crash);
            }
            self.consume()?;
            self.consume()?;
            match hex_pair_exec(c0, c1) {
                Some(v) => Ok(v),
                None => {
                    let mut t = String::new();
                    push_char(&mut t, c0);
                    push_char(&mut t, c1);
                    assert(t@ =~= seq![c0, c1]);
                    let m = concat("Invalid hex pair: ", debug_str(t.as_str()).as_str());
                    Err(self.error(m))
                },
            }
        } else if w0 == 2 {
            self.consume()?;
            let mut t = String::new();
            push_char(&mut t, c0);
            assert(t@ =~= seq![c0]);
            let m = concat("Invalid hex pair: ", debug_str(t.as_str()).as_str());
            Err(self.error(m))
        } else {
            Err(Failure::Crash)
        }
    }

    fn parse_color(&mut self) -> (r: Result<Value, Failure>)
        requires
            old(self).parser.wf(),
        ensures
            match (r, spec_color(old(self).text(), old(self).at())) {
                (Ok(v), Ok((sv, j))) => v@ == sv && old(self).parser.moved_to(&final(self).parser, j),
                (Err(f), Err(sf)) => f.models(old(self).text(), sf),
                _ => false,
            },
    {
        self.expect_char('#')?;
        let r = self.parse_hex_pair()?;
        let g = self.parse_hex_pair()?;
        let b = self.parse_hex_pair()?;
        Ok(Value::ColorValue(Color { r, g, b, a: 255 }))
    }

    fn parse_float(&mut self) -> (r: Result<String, Failure>)
        requires
            old(self).parser.wf(),
        ensures
            match (r, spec_float(old(self).text(), old(self).at())) {
                (Ok(v), Ok((sv, j))) => v@ == sv && old(self).parser.moved_to(&final(self).parser, j),
                (Err(f), Err(sf)) => f.models(old(self).text(), sf),
                _ => false,
            },
    {
        let ghost s = self.text();
        let ghost i = self.at();
        let t = match self.parser.consume_while(is_float_char_exec) {
            Ok(v) => v,
            Err(e) => return Err(Failure::Error(e)),
        };
        proof {
            lemma_consumed(is_float_char_exec, float_char(), s, i, self.at());
        }
        if !float_ok(t.as_str()) {
            let m = concat("Invalid float: ", debug_str(t.as_str()).as_str());
            return Err(self.error(m));
        }
        Ok(t)
    }

    fn parse_unit(&mut self) -> (r: Result<Unit, Failure>)
        requires
            old(self).parser.wf(),
        ensures
            match (r, spec_unit(old(self).text(), old(self).at())) {
                (Ok(v), Ok((sv, j))) => v == sv && old(self).parser.moved_to(&final(self).parser, j),
                (Err(f), Err(sf)) => f.models(old(self).text(), sf),
                _ => false,
            },
    {
        let ident = self.parse_identifier()?;
        let ident = to_ascii_lowercase(ident.as_str());
        if str_eq(ident.as_str(), "px") {
            Ok(Unit::Px)
        } else {
            let m = concat("Unrecognized unit: ", debug_str(ident.as_str()).as_str());
            Err(self.error(m))
        }
    }

    fn parse_length(&mut self) -> (r: Result<Value, Failure>)
        requires
            old(self).parser.wf(),
        ensures
            match (r, spec_length(old(self).text(), old(self).at())) {
                (Ok(v), Ok((sv, j))) => v@ == sv && old(self).parser.moved_to(&final(self).parser, j),
                (Err(f), Err(sf)) => f.models(old(self).text(), sf),
                _ => false,
            },
    {
        let n = self.parse_float()?;
        let u = self.parse_unit()?;
        Ok(Value::Length(n, u))
    }

    fn parse_value(&mut self) -> (r: Result<Value, Failure>)
        requires
            old(self).parser.wf(),
        ensures
            match (r, spec_value(old(self).text(), old(self).at())) {
                (Ok(v), Ok((sv, j))) => v@ == sv && old(self).parser.moved_to(&final(self).parser, j),
                (Err(f), Err(sf)) => f.models(old(self).text(), sf),
                _ => false,
            },
    {
        let c = self.next()?;
        if '0' <= c && c <= '9' {
            self.parse_length()
        } else if c == '#' {
            self.parse_color()
        } else {
            let k = self.parse_identifier()?;
            Ok(Value::Keyword(k))
        }
    }

    fn parse_declaration(&mut self) -> (r: Result<Declaration, Failure>)
        requires
            old(self).parser.wf(),
        ensures
            match (r, spec_declaration(old(self).text(), old(self).at())) {
                (Ok(v), Ok((sv, j))) => v@ == sv && old(self).parser.moved_to(&final(self).parser, j),
                (Err(f), Err(sf)) => f.models(old(self).text(), sf),
                _ => false,
            },
    {
        let name = self.parse_identifier()?;
        self.ws();
        self.expect_char(':')?;
        self.ws();
        let value = self.parse_value()?;
        self.ws();
        self.expect_char(';')?;
        Ok(Declaration { name, value })
    }

    fn parse_declarations(&mut self) -> (r: Result<Vec<Declaration>, Failure>)
        requires
            old(self).parser.wf(),
        ensures
            match (r, spec_parse_declarations(old(self).text(), old(self).at())) {
                (Ok(v), Ok((sv, j))) => declarations_view(v@) == sv && old(self).parser.moved_to(
                    &final(self).parser,
                    j,
                ),
                (Err(f), Err(sf)) => f.models(old(self).text(), sf),
                _ => false,
            },
    {
        let ghost s = self.text();
        self.expect_char('{')?;
        let ghost start = self.at();
        let mut declarations: Vec<Declaration> = Vec::new();
        proof {
            self.parser.lemma_wf();
            assert(declarations_view(declarations@) =~= Seq::<SDeclaration>::empty());
        }
        loop
            invariant_except_break
                spec_declarations(s, start, Seq::empty()) == spec_declarations(
                    s,
                    self.at(),
                    declarations_view(declarations@),
                ),
            invariant
                self.parser.wf(),
                s == old(self).text(),
                spec_parse_declarations(s, old(self).at()) == spec_declarations(
                    s,
                    start,
                    Seq::empty(),
                ),
                old(self).parser.moved_to(&self.parser, self.at()),
                start <= self.at() <= s.len(),
            ensures
                self.parser.wf(),
                old(self).parser.moved_to(&self.parser, self.at()),
                spec_declarations(s, start, Seq::empty()) == Ok::<
                    (Seq<SDeclaration>, nat),
                    CssFail,
                >((declarations_view(declarations@), self.at())),
            decreases s.len() - self.at(),
        {
            let ghost i = self.at();
            self.ws();
            proof {
                lemma_take_while_end(s, i, whitespace());
            }
            let c = self.next()?;
            if c == '}' {
                self.consume()?;
                break;
            }
            let ghost k = self.at();
            let d = self.parse_declaration()?;
            proof {
                lemma_declaration_advances(s, k);
            }
            let ghost old_decls = declarations@;
            declarations.push(d);
            assert(declarations_view(declarations@) =~= declarations_view(old_decls).push(d@));
        }
        Ok(declarations)
    }

    fn parse_rule(&mut self) -> (r: Result<Rule, Failure>)
        requires
            old(self).parser.wf(),
        ensures
            match (r, spec_rule(old(self).text(), old(self).at())) {
                (Ok(v), Ok((sv, j))) => v@ == sv && old(self).parser.moved_to(&final(self).parser, j),
                (Err(f), Err(sf)) => f.models(old(self).text(), sf),
                _ => false,
            },
    {
        let selectors = self.parse_selectors()?;
        let declarations = self.parse_declarations()?;
        Ok(Rule { selectors, declarations })
    }

    fn parse_rules(&mut self) -> (r: Result<Vec<Rule>, Failure>)
        requires
            old(self).parser.wf(),
            old(self).at() == 0,
        ensures
            match (r, spec_rules(old(self).text(), 0, Seq::empty())) {
                (Ok(v), Ok((sv, j))) => rules_view(v@) == sv,
                (Err(f), Err(sf)) => f.models(old(self).text(), sf),
                _ => false,
            },
    {
        let ghost s = self.text();
        let mut rules: Vec<Rule> = Vec::new();
        proof {
            self.parser.lemma_wf();
            assert(rules_view(rules@) =~= Seq::<SRule>::empty());
        }
        loop
            invariant
                self.parser.wf(),
                s == old(self).text(),
                self.text() == s,
                self.at() <= s.len(),
                spec_rules(s, 0, Seq::empty()) == spec_rules(s, self.at(), rules_view(rules@)),
            ensures
                spec_rules(s, 0, Seq::empty()) == Ok::<(Seq<SRule>, nat), CssFail>(
                    (rules_view(rules@), self.at()),
                ),
            decreases s.len() - self.at(),
        {
            let ghost i = self.at();
            self.ws();
            proof {
                lemma_take_while_end(s, i, whitespace());
            }
            if self.parser.eof() {
                break;
            }
            let ghost k = self.at();
            let rule = self.parse_rule()?;
            proof {
                lemma_rule_advances(s, k);
            }
            let ghost old_rules = rules@;
            rules.push(rule);
            assert(rules_view(rules@) =~= rules_view(old_rules).push(rule@));
        }
        Ok(rules)
    }
}

pub open spec fn keyed_view(v: Seq<(Specificity, Selector)>) -> Seq<SSelector> {
    v.map_values(|p: (Specificity, Selector)| p.1@)
}

/// Where at least two bytes follow index `i` and the char at `i` is one
/// byte long, another char follows it.
proof fn lemma_rest_width(s: Seq<char>, i: int)
    requires
        0 <= i <= s.len(),
        utf8_len(s.subrange(i, s.len() as int)) >= 2,
    ensures
        i < s.len(),
        char_width(s[i]) == 1 ==> i + 1 < s.len(),
{
    let t = s.subrange(i, s.len() as int);
    if t.len() > 0 {
        assert(t =~= seq![s[i]] + s.subrange(i + 1, s.len() as int));
        crate::parser::lemma_utf8_len_concat(seq![s[i]], s.subrange(i + 1, s.len() as int));
        assert(seq![s[i]].drop_last() =~= Seq::<char>::empty());
        if i + 1 >= s.len() {
            assert(s.subrange(i + 1, s.len() as int) =~= Seq::<char>::empty());
        }
    }
}

} // verus!
