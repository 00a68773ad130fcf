//! A plain-value model of ICU MessageFormat syntax trees and the walks over them:
//! literal collection and replacement, argument names, generic plurals.
use vstd::prelude::*;
use crate::text::{blank, chars_of, is_blank};
use formatjs_icu_messageformat_parser::types::{
    DateTimeSkeleton, DateTimeSkeletonOrStyle, MessageFormatElement, NumberSkeleton,
    NumberSkeletonOrStyle, NumberSkeletonToken, PluralElement, PluralOrSelectOption, PluralType,
    PoundElement, SelectElement, SimpleFormatElement, TagElement, ValidPluralRule,
};
use formatjs_icu_messageformat_parser::{print_ast, Parser, ParserOptions};

verus! {

/// The style of a `number` argument: a named style or a skeleton given as
/// tokens, each a stem with its options.
pub enum NumberStyle {
    Text(String),
    Skeleton(Vec<(String, Vec<String>)>),
}

/// The style of a `date` or `time` argument: a named style or a skeleton pattern.
pub enum DateTimeStyle {
    Text(String),
    Skeleton(String),
}

/// One element of an ICU message. `Select` and `Plural` carry their argument name
/// and their branches as (key, sub-message) in source order; `Plural` also carries
/// its offset and whether it is ordinal (`selectordinal`).
pub enum IcuElement {
    Literal(String),
    Argument(String),
    Number(String, Option<NumberStyle>),
    Date(String, Option<DateTimeStyle>),
    Time(String, Option<DateTimeStyle>),
    Select(String, Vec<(String, Vec<IcuElement>)>),
    Plural(String, Vec<(String, Vec<IcuElement>)>, i32, bool),
    Pound,
    Tag(String, Vec<IcuElement>),
}

/// [`NumberStyle`] as plain values.
pub enum NumberStyleView {
    Text(Seq<char>),
    Skeleton(Seq<(Seq<char>, Seq<Seq<char>>)>),
}

/// [`DateTimeStyle`] as plain values.
pub enum DateTimeStyleView {
    Text(Seq<char>),
    Skeleton(Seq<char>),
}

/// [`IcuElement`] as plain values.
pub enum IcuNode {
    Literal(Seq<char>),
    Argument(Seq<char>),
    Number(Seq<char>, Option<NumberStyleView>),
    Date(Seq<char>, Option<DateTimeStyleView>),
    Time(Seq<char>, Option<DateTimeStyleView>),
    Select(Seq<char>, Seq<(Seq<char>, Seq<IcuNode>)>),
    Plural(Seq<char>, Seq<(Seq<char>, Seq<IcuNode>)>, i32, bool),
    Pound,
    Tag(Seq<char>, Seq<IcuNode>),
}

pub open spec fn number_style_view(s: NumberStyle) -> NumberStyleView {
    match s {
        NumberStyle::Text(t) => NumberStyleView::Text(t@),
        NumberStyle::Skeleton(ts) => NumberStyleView::Skeleton(ts.deep_view()),
    }
}

pub open spec fn date_style_view(s: DateTimeStyle) -> DateTimeStyleView {
    match s {
        DateTimeStyle::Text(t) => DateTimeStyleView::Text(t@),
        DateTimeStyle::Skeleton(p) => DateTimeStyleView::Skeleton(p@),
    }
}

/// An element as plain values.
pub open spec fn node_of(e: IcuElement) -> IcuNode
    decreases e,
{
    match e {
        IcuElement::Literal(s) => IcuNode::Literal(s@),
        IcuElement::Argument(s) => IcuNode::Argument(s@),
        IcuElement::Number(s, st) => IcuNode::Number(
            s@,
            match st {
                Some(x) => Some(number_style_view(x)),
                None => None,
            },
        ),
        IcuElement::Date(s, st) => IcuNode::Date(
            s@,
            match st {
                Some(x) => Some(date_style_view(x)),
                None => None,
            },
        ),
        IcuElement::Time(s, st) => IcuNode::Time(
            s@,
            match st {
                Some(x) => Some(date_style_view(x)),
                None => None,
            },
        ),
        IcuElement::Select(s, os) => IcuNode::Select(s@, options_of(os@)),
        IcuElement::Plural(s, os, off, ord) => IcuNode::Plural(s@, options_of(os@), off, ord),
        IcuElement::Pound => IcuNode::Pound,
        IcuElement::Tag(s, ch) => IcuNode::Tag(s@, nodes_of(ch@)),
    }
}

/// A sequence of elements as plain values.
pub open spec fn nodes_of(es: Seq<IcuElement>) -> Seq<IcuNode>
    decreases es,
{
    if es.len() == 0 {
        Seq::empty()
    } else {
        nodes_of(es.drop_last()).push(node_of(es.last()))
    }
}

/// Branches as plain values.
pub open spec fn options_of(os: Seq<(String, Vec<IcuElement>)>) -> Seq<(Seq<char>, Seq<IcuNode>)>
    decreases os,
{
    if os.len() == 0 {
        Seq::empty()
    } else {
        options_of(os.drop_last()).push((os.last().0@, nodes_of(os.last().1@)))
    }
}

// ---------------------------------------------------------------------------
// The parser and printer of `formatjs_icu_messageformat_parser`.

#[verifier::external_type_specification]
#[verifier::external_body]
pub struct ExMessageFormatElement(MessageFormatElement);

#[verifier::external_type_specification]
#[verifier::external_body]
pub struct ExNumberSkeletonOrStyle(NumberSkeletonOrStyle);

#[verifier::external_type_specification]
#[verifier::external_body]
pub struct ExDateTimeSkeletonOrStyle(DateTimeSkeletonOrStyle);

#[verifier::external_type_specification]
#[verifier::external_body]
pub struct ExSelectElement(SelectElement);

#[verifier::external_type_specification]
#[verifier::external_body]
pub struct ExPluralElement(PluralElement);

#[verifier::external_type_specification]
#[verifier::external_body]
#[verifier::reject_recursive_types(S)]
pub struct ExSimpleFormatElement<S>(SimpleFormatElement<S>);

/// The syntax tree that `formatjs_icu_messageformat_parser` parses a message
/// into, with default options, as plain values; `None` where it reports an error.
pub uninterp spec fn icu_parsed(text: Seq<char>) -> Option<Seq<IcuNode>>;

/// The text that `formatjs_icu_messageformat_parser::print_ast` prints for a syntax tree.
pub uninterp spec fn icu_printed(ast: Seq<IcuNode>) -> Seq<char>;

/// `word` occurs in `text` starting at position `i`.
pub open spec fn word_at(text: Seq<char>, i: int, word: Seq<char>) -> bool {
    0 <= i && i + word.len() <= text.len() && text.subrange(i, i + word.len()) == word
}

/// One of the argument types whose style the parser scans, `number`, `date` or
/// `time`, is written at position `i`.
pub open spec fn style_type_at(text: Seq<char>, i: int) -> bool {
    word_at(text, i, "number"@) || word_at(text, i, "date"@) || word_at(text, i, "time"@)
}

/// A text that the parser reads without panicking. The parser skips a quoted
/// part of the style of a `number`, `date` or `time` argument with a character
/// offset used as a byte offset (`Parser::bump_until`), which can cut a
/// multi-byte character and panic. It reaches that code only at an apostrophe
/// that comes after such a type word, and on ASCII text the two offsets agree.
/// So a text is left out only where it has a character outside ASCII and an
/// apostrophe somewhere after one of the words `number`, `date` or `time`.
pub open spec fn icu_safe(text: Seq<char>) -> bool {
    (forall|i: int| 0 <= i < text.len() ==> (#[trigger] text[i] as int) < 128) || !(exists|
        i: int,
        j: int,
    | 0 <= i < j < text.len() && #[trigger] style_type_at(text, i) && #[trigger] text[j] == '\'')
}

/// Calls `Parser::new(text, ParserOptions::default()).parse()` of
/// `formatjs_icu_messageformat_parser` and converts the tree it returns, element
/// for element, into [`IcuElement`]s. The contract claims only that the result is
/// a function of the text; what the parser accepts and builds is not restated.
/// Texts on which the parser can panic are left out.
#[verifier::external_body]
pub(crate) fn parse_icu(text: &str) -> (r: Option<Vec<IcuElement>>)
    requires
        icu_safe(text@),
    ensures
        match r {
            Some(v) => icu_parsed(text@) == Some(nodes_of(v@)),
            None => icu_parsed(text@) is None,
        },
{
    Parser::new(text, ParserOptions::default()).parse().ok().map(elements_from)
}

/// Calls `print_ast` of `formatjs_icu_messageformat_parser` on the tree converted
/// back, element for element; locations are left out and skeleton options are
/// rebuilt empty, neither of which the printer reads. The contract claims only
/// that the text is a function of the tree's plain values.
#[verifier::external_body]
pub(crate) fn print_icu(ast: &Vec<IcuElement>) -> (r: String)
    ensures
        r@ == icu_printed(nodes_of(ast@)),
{
    print_ast(&elements_into(ast))
}

/// The tree a message reads as: what the parser builds, where the text is one
/// that the parser reads without panicking (see [`icu_safe`]); a text of the
/// other kind counts as one that does not parse.
pub open spec fn message_tree(text: Seq<char>) -> Option<Seq<IcuNode>> {
    if icu_safe(text) {
        icu_parsed(text)
    } else {
        None
    }
}

/// Whether `w` occurs in `cs` starting at position `i`.
fn has_word_at(cs: &Vec<char>, i: usize, w: &str) -> (r: bool)
    ensures
        r == word_at(cs@, i as int, w@),
{
    let wc = chars_of(w);
    if i > cs.len() || wc.len() > cs.len() - i {
        return false;
    }
    let mut k: usize = 0;
    while k < wc.len()
        invariant
            wc@ == w@,
            i + wc.len() <= cs.len(),
            k <= wc@.len(),
            forall|m: int| 0 <= m < k ==> cs@[i + m] == wc@[m],
        decreases wc.len() - k,
    {
        if cs[i + k] != wc[k] {
            assert(cs@.subrange(i as int, i + wc@.len())[k as int] != w@[k as int]);
            return false;
        }
        k += 1;
    }
    assert(cs@.subrange(i as int, i + wc@.len()) =~= w@);
    true
}

/// Whether the parser reads a text without panicking (see [`icu_safe`]).
pub fn is_icu_safe(text: &str) -> (r: bool)
    ensures
        r == icu_safe(text@),
{
    let cs = chars_of(text);
    let mut ascii = true;
    let mut seen_type = false;
    let mut quoted_after = false;
    let mut i: usize = 0;
    while i < cs.len()
        invariant
            i <= cs@.len(),
            cs@ == text@,
            ascii == (forall|k: int| 0 <= k < i ==> (#[trigger] cs@[k] as int) < 128),
            seen_type == (exists|k: int| 0 <= k < i && #[trigger] style_type_at(cs@, k)),
            quoted_after == (exists|k: int, j: int|
                0 <= k < j < i && #[trigger] style_type_at(cs@, k) && #[trigger] cs@[j] == '\''),
        decreases cs.len() - i,
    {
        let c = cs[i];
        proof {
            assert(cs@[i as int] == c);
        }
        if c >= '\u{80}' {
            ascii = false;
        }
        let ghost before = quoted_after;
        if c == '\'' && seen_type {
            quoted_after = true;
            proof {
                let k = choose|k: int| 0 <= k < i && #[trigger] style_type_at(cs@, k);
                assert(style_type_at(cs@, k) && cs@[i as int] == '\'');
            }
        }
        proof {
            if quoted_after && !before {
                assert(c == '\'');
            }
            if !quoted_after {
                assert forall|k: int, j: int|
                    0 <= k < j < i + 1 && #[trigger] style_type_at(cs@, k) implies #[trigger] cs@[j]
                    != '\'' by {
                    if j == i {
                        assert(!seen_type || c != '\'');
                        if c == '\'' {
                            assert(!seen_type);
                            assert(!(0 <= k < i && style_type_at(cs@, k)));
                        }
                    }
                }
            }
        }
        let t = has_word_at(&cs, i, "number") || has_word_at(&cs, i, "date") || has_word_at(&cs, i, "time");
        let ghost seen_before = seen_type;
        if t {
            seen_type = true;
        }
        proof {
            assert(t == style_type_at(cs@, i as int));
            if seen_type && !seen_before {
                assert(style_type_at(cs@, i as int));
            }
            if !seen_type {
                assert forall|k: int| 0 <= k < i + 1 implies !#[trigger] style_type_at(cs@, k) by {
                    if k < i {
                        assert(!(0 <= k < i && style_type_at(cs@, k)));
                    }
                }
            }
        }
        i += 1;
    }
    let safe = ascii || !quoted_after;
    proof {
        assert(cs@ == text@);
    }
    safe
}

/// Parses an ICU message as `formatjs_icu_messageformat_parser` does with its
/// default options; `None` where the parser reports an error, and for a text
/// on which the parser could panic.
pub fn parse_message(text: &str) -> (r: Option<Vec<IcuElement>>)
    ensures
        match r {
            Some(v) => message_tree(text@) == Some(nodes_of(v@)),
            None => message_tree(text@) is None,
        },
{
    if is_icu_safe(text) {
        parse_icu(text)
    } else {
        None
    }
}

/// Prints a syntax tree as `formatjs_icu_messageformat_parser::print_ast` does.
pub fn print_message(ast: &Vec<IcuElement>) -> (r: String)
    ensures
        r@ == icu_printed(nodes_of(ast@)),
{
    print_icu(ast)
}

/// Converts parsed elements into the library's model, one for one.
#[verifier::external_body]
fn elements_from(els: Vec<MessageFormatElement>) -> Vec<IcuElement> {
    els.into_iter().map(element_from).collect()
}

/// Converts one parsed element into the library's model, moving its fields.
#[verifier::external_body]
fn element_from(e: MessageFormatElement) -> IcuElement {
    match e {
        MessageFormatElement::Literal(l) => IcuElement::Literal(l.value),
        MessageFormatElement::Argument(a) => IcuElement::Argument(a.value),
        MessageFormatElement::Number(n) => IcuElement::Number(n.value, n.style.map(number_style_from)),
        MessageFormatElement::Date(d) => IcuElement::Date(d.value, d.style.map(date_style_from)),
        MessageFormatElement::Time(t) => IcuElement::Time(t.value, t.style.map(date_style_from)),
        MessageFormatElement::Select(s) => select_from(s),
        MessageFormatElement::Plural(p) => plural_from(p),
        MessageFormatElement::Pound(_) => IcuElement::Pound,
        MessageFormatElement::Tag(t) => IcuElement::Tag(t.value, elements_from(t.children)),
    }
}

/// Converts a parsed `select`, moving its name and its branches in order.
#[verifier::external_body]
fn select_from(s: SelectElement) -> IcuElement {
    IcuElement::Select(s.value, s.options.into_iter().map(|(k, o)| (k, elements_from(o.value))).collect())
}

/// Converts a parsed `plural`, moving its name, branches in order (keys as
/// written), offset and kind.
#[verifier::external_body]
fn plural_from(p: PluralElement) -> IcuElement {
    let options = p.options.into_iter().map(|(k, o)| (k.as_str().to_string(), elements_from(o.value)));
    IcuElement::Plural(p.value, options.collect(), p.offset, matches!(p.plural_type, PluralType::Ordinal))
}

/// Converts a parsed number style, moving its fields.
#[verifier::external_body]
fn number_style_from(st: NumberSkeletonOrStyle) -> NumberStyle {
    match st {
        NumberSkeletonOrStyle::String(t) => NumberStyle::Text(t),
        NumberSkeletonOrStyle::Skeleton(k) => NumberStyle::Skeleton(k.tokens.into_iter().map(|t| (t.stem, t.options)).collect()),
    }
}

/// Converts a parsed date or time style, moving its fields.
#[verifier::external_body]
fn date_style_from(st: DateTimeSkeletonOrStyle) -> DateTimeStyle {
    match st {
        DateTimeSkeletonOrStyle::String(t) => DateTimeStyle::Text(t),
        DateTimeSkeletonOrStyle::Skeleton(k) => DateTimeStyle::Skeleton(k.pattern),
    }
}

/// Converts the library's elements back into the parser's, one for one.
#[verifier::external_body]
fn elements_into(els: &Vec<IcuElement>) -> Vec<MessageFormatElement> {
    els.iter().map(element_into).collect()
}

/// Converts one element back into the parser's, copying its fields.
#[verifier::external_body]
fn element_into(e: &IcuElement) -> MessageFormatElement {
    match e {
        IcuElement::Literal(s) => MessageFormatElement::literal(s.clone()),
        IcuElement::Argument(s) => MessageFormatElement::argument(s.clone()),
        IcuElement::Number(v, st) => number_into(v, st),
        IcuElement::Date(v, st) => MessageFormatElement::Date(date_into(v, st)),
        IcuElement::Time(v, st) => MessageFormatElement::Time(date_into(v, st)),
        IcuElement::Select(v, os) => select_into(v, os),
        IcuElement::Plural(v, os, off, ord) => plural_into(v, os, *off, *ord),
        IcuElement::Pound => MessageFormatElement::Pound(PoundElement { location: None }),
        IcuElement::Tag(v, ch) => MessageFormatElement::Tag(TagElement { value: v.clone(), children: elements_into(ch), location: None }),
    }
}

/// Converts a `number` argument back, copying its name and style.
#[verifier::external_body]
fn number_into(v: &String, st: &Option<NumberStyle>) -> MessageFormatElement {
    MessageFormatElement::Number(SimpleFormatElement { value: v.clone(), style: st.as_ref().map(number_style_into), location: None })
}

/// Converts a `date` or `time` argument's fields back, copying its name and style.
#[verifier::external_body]
fn date_into(v: &String, st: &Option<DateTimeStyle>) -> SimpleFormatElement<DateTimeSkeletonOrStyle> {
    SimpleFormatElement { value: v.clone(), style: st.as_ref().map(date_style_into), location: None }
}

/// Converts a `select` back, copying its name and its branches in order.
#[verifier::external_body]
fn select_into(v: &String, os: &Vec<(String, Vec<IcuElement>)>) -> MessageFormatElement {
    let options = os.iter().map(|(k, c)| (k.clone(), PluralOrSelectOption { value: elements_into(c), location: None }));
    MessageFormatElement::Select(SelectElement { value: v.clone(), options: options.collect(), location: None })
}

/// Converts a `plural` back, copying its name, branches in order (keys read back
/// with `ValidPluralRule::from_str`), offset and kind.
#[verifier::external_body]
fn plural_into(v: &String, os: &Vec<(String, Vec<IcuElement>)>, off: i32, ord: bool) -> MessageFormatElement {
    let options = os.iter().map(|(k, c)| (ValidPluralRule::from_str(k), PluralOrSelectOption { value: elements_into(c), location: None }));
    let plural_type = if ord { PluralType::Ordinal } else { PluralType::Cardinal };
    MessageFormatElement::Plural(PluralElement { value: v.clone(), options: options.collect(), offset: off, plural_type, location: None })
}

/// Converts a number style back, copying its fields; skeleton options start empty.
#[verifier::external_body]
fn number_style_into(st: &NumberStyle) -> NumberSkeletonOrStyle {
    match st {
        NumberStyle::Text(t) => NumberSkeletonOrStyle::String(t.clone()),
        NumberStyle::Skeleton(ts) => NumberSkeletonOrStyle::Skeleton(NumberSkeleton { tokens: ts.iter().map(|(s, o)| NumberSkeletonToken { stem: s.clone(), options: o.clone() }).collect(), location: None, parsed_options: Default::default() }),
    }
}

/// Converts a date or time style back, copying its fields; skeleton options start empty.
#[verifier::external_body]
fn date_style_into(st: &DateTimeStyle) -> DateTimeSkeletonOrStyle {
    match st {
        DateTimeStyle::Text(t) => DateTimeSkeletonOrStyle::String(t.clone()),
        DateTimeStyle::Skeleton(p) => DateTimeSkeletonOrStyle::Skeleton(DateTimeSkeleton { pattern: p.clone(), location: None, parsed_options: Default::default() }),
    }
}

// ---------------------------------------------------------------------------
// Literals, in depth-first order.

/// The literal texts of a message, depth first: branches in order, tag children in order.
pub open spec fn literals_of(ns: Seq<IcuNode>) -> Seq<Seq<char>>
    decreases ns,
{
    if ns.len() == 0 {
        Seq::empty()
    } else {
        literals_of(ns.drop_last()) + literals_in(ns.last())
    }
}

pub open spec fn literals_in(n: IcuNode) -> Seq<Seq<char>>
    decreases n,
{
    match n {
        IcuNode::Literal(s) => seq![s],
        IcuNode::Select(_, os) => literals_of_options(os),
        IcuNode::Plural(_, os, _, _) => literals_of_options(os),
        IcuNode::Tag(_, ch) => literals_of(ch),
        _ => Seq::empty(),
    }
}

pub open spec fn literals_of_options(os: Seq<(Seq<char>, Seq<IcuNode>)>) -> Seq<Seq<char>>
    decreases os,
{
    if os.len() == 0 {
        Seq::empty()
    } else {
        literals_of_options(os.drop_last()) + literals_of(os.last().1)
    }
}

// ---------------------------------------------------------------------------
// Argument names.

/// The argument names of a message (arguments, plurals, selects, numbers, dates,
/// times and tags), depth first.
pub open spec fn arg_names_of(ns: Seq<IcuNode>) -> Seq<Seq<char>>
    decreases ns,
{
    if ns.len() == 0 {
        Seq::empty()
    } else {
        arg_names_of(ns.drop_last()) + arg_names_in(ns.last())
    }
}

pub open spec fn arg_names_in(n: IcuNode) -> Seq<Seq<char>>
    decreases n,
{
    match n {
        IcuNode::Argument(a) => seq![a],
        IcuNode::Plural(v, os, _, _) => seq![v] + arg_names_of_options(os),
        IcuNode::Select(v, os) => seq![v] + arg_names_of_options(os),
        IcuNode::Number(v, _) => seq![v],
        IcuNode::Date(v, _) => seq![v],
        IcuNode::Time(v, _) => seq![v],
        IcuNode::Tag(v, ch) => seq![v] + arg_names_of(ch),
        _ => Seq::empty(),
    }
}

pub open spec fn arg_names_of_options(os: Seq<(Seq<char>, Seq<IcuNode>)>) -> Seq<Seq<char>>
    decreases os,
{
    if os.len() == 0 {
        Seq::empty()
    } else {
        arg_names_of_options(os.drop_last()) + arg_names_of(os.last().1)
    }
}

// ---------------------------------------------------------------------------
// Generic plurals.

/// A branch that holds both a runtime argument and a literal that is not all white space.
pub open spec fn mixes_argument_and_text(ns: Seq<IcuNode>) -> bool {
    &&& exists|i: int| 0 <= i < ns.len() && #[trigger] ns[i] is Argument
    &&& exists|i: int| 0 <= i < ns.len() && is_text_literal(#[trigger] ns[i])
}

/// A literal whose text is not all white space.
pub open spec fn is_text_literal(n: IcuNode) -> bool {
    match n {
        IcuNode::Literal(s) => !is_blank(s),
        _ => false,
    }
}

/// Some plural or select branch, at any depth, mixes a runtime argument with
/// literal text.
pub open spec fn generic_in(ns: Seq<IcuNode>) -> bool
    decreases ns,
{
    ns.len() > 0 && (generic_in(ns.drop_last()) || generic_at(ns.last()))
}

pub open spec fn generic_at(n: IcuNode) -> bool
    decreases n,
{
    match n {
        IcuNode::Plural(_, os, _, _) => generic_in_branches(os),
        IcuNode::Select(_, os) => generic_in_branches(os),
        IcuNode::Tag(_, ch) => generic_in(ch),
        _ => false,
    }
}

/// Some branch mixes a runtime argument with literal text, or holds such a
/// branch deeper down.
pub open spec fn generic_in_branches(os: Seq<(Seq<char>, Seq<IcuNode>)>) -> bool
    decreases os,
{
    os.len() > 0 && (generic_in_branches(os.drop_last()) || mixes_argument_and_text(
        os.last().1,
    ) || generic_in(os.last().1))
}

// ---------------------------------------------------------------------------
// Replacing literals.

/// The message with its literals, counted depth first from position `at` of
/// `lits`, replaced by the entries of `lits`; a literal past the end of `lits`
/// keeps its text.
pub open spec fn relabel(ns: Seq<IcuNode>, lits: Seq<Seq<char>>, at: int) -> Seq<IcuNode>
    decreases ns,
{
    if ns.len() == 0 {
        Seq::empty()
    } else {
        relabel(ns.drop_last(), lits, at).push(
            relabel_node(ns.last(), lits, at + literals_of(ns.drop_last()).len()),
        )
    }
}

pub open spec fn relabel_node(n: IcuNode, lits: Seq<Seq<char>>, at: int) -> IcuNode
    decreases n,
{
    match n {
        IcuNode::Literal(s) => IcuNode::Literal(
            if 0 <= at < lits.len() {
                lits[at]
            } else {
                s
            },
        ),
        IcuNode::Select(v, os) => IcuNode::Select(v, relabel_options(os, lits, at)),
        IcuNode::Plural(v, os, off, ord) => IcuNode::Plural(
            v,
            relabel_options(os, lits, at),
            off,
            ord,
        ),
        IcuNode::Tag(v, ch) => IcuNode::Tag(v, relabel(ch, lits, at)),
        other => other,
    }
}

pub open spec fn relabel_options(
    os: Seq<(Seq<char>, Seq<IcuNode>)>,
    lits: Seq<Seq<char>>,
    at: int,
) -> Seq<(Seq<char>, Seq<IcuNode>)>
    decreases os,
{
    if os.len() == 0 {
        Seq::empty()
    } else {
        relabel_options(os.drop_last(), lits, at).push(
            (
                os.last().0,
                relabel(os.last().1, lits, at + literals_of_options(os.drop_last()).len()),
            ),
        )
    }
}

// ---------------------------------------------------------------------------
// Executable walks.

proof fn lemma_nodes_push(es: Seq<IcuElement>, i: int)
    requires
        0 <= i < es.len(),
    ensures
        nodes_of(es.take(i + 1)) == nodes_of(es.take(i)).push(node_of(es[i])),
{
    assert(es.take(i + 1).drop_last() =~= es.take(i));
}

proof fn lemma_options_push(os: Seq<(String, Vec<IcuElement>)>, i: int)
    requires
        0 <= i < os.len(),
    ensures
        options_of(os.take(i + 1)) == options_of(os.take(i)).push((os[i].0@, nodes_of(os[i].1@))),
{
    assert(os.take(i + 1).drop_last() =~= os.take(i));
}

proof fn lemma_push_drop<A>(s: Seq<A>, a: A)
    ensures
        s.push(a).drop_last() == s,
        s.push(a).last() == a,
{
    assert(s.push(a).drop_last() =~= s);
}

/// Collects all literal values of a message, recursing into plural, select
/// and tag bodies, in depth-first order.
pub fn collect_literals(elements: &Vec<IcuElement>) -> (r: Vec<String>)
    ensures
        r.deep_view() == literals_of(nodes_of(elements@)),
    decreases elements@,
{
    let mut out: Vec<String> = Vec::new();
    let mut i: usize = 0;
    while i < elements.len()
        invariant
            i <= elements@.len(),
            out.deep_view() == literals_of(nodes_of(elements@.take(i as int))),
        decreases elements.len() - i,
    {
        proof {
            lemma_nodes_push(elements@, i as int);
            lemma_push_drop(nodes_of(elements@.take(i as int)), node_of(elements@[i as int]));
        }
        let ghost before = out.deep_view();
        match &elements[i] {
            IcuElement::Literal(s) => {
                out.push(s.clone());
                assert(out.deep_view() =~= before + seq![s@]);
            },
            IcuElement::Select(_, opts) => {
                let mut sub = collect_literals_of_options(opts);
                out.append(&mut sub);
                assert(out.deep_view() =~= before + literals_of_options(options_of(opts@)));
            },
            IcuElement::Plural(_, opts, _, _) => {
                let mut sub = collect_literals_of_options(opts);
                out.append(&mut sub);
                assert(out.deep_view() =~= before + literals_of_options(options_of(opts@)));
            },
            IcuElement::Tag(_, ch) => {
                let mut sub = collect_literals(ch);
                out.append(&mut sub);
                assert(out.deep_view() =~= before + literals_of(nodes_of(ch@)));
            },
            _ => {
                assert(out.deep_view() =~= before + literals_in(node_of(elements@[i as int])));
            },
        }
        i += 1;
    }
    proof {
        assert(elements@.take(elements@.len() as int) =~= elements@);
    }
    out
}

fn collect_literals_of_options(opts: &Vec<(String, Vec<IcuElement>)>) -> (r: Vec<String>)
    ensures
        r.deep_view() == literals_of_options(options_of(opts@)),
    decreases opts@,
{
    let mut out: Vec<String> = Vec::new();
    let mut j: usize = 0;
    while j < opts.len()
        invariant
            j <= opts@.len(),
            out.deep_view() == literals_of_options(options_of(opts@.take(j as int))),
        decreases opts.len() - j,
    {
        proof {
            lemma_options_push(opts@, j as int);
            lemma_push_drop(
                options_of(opts@.take(j as int)),
                (opts@[j as int].0@, nodes_of(opts@[j as int].1@)),
            );
        }
        let ghost before = out.deep_view();
        let mut sub = collect_literals(&opts[j].1);
        out.append(&mut sub);
        assert(out.deep_view() =~= before + literals_of(nodes_of(opts@[j as int].1@)));
        j += 1;
    }
    proof {
        assert(opts@.take(opts@.len() as int) =~= opts@);
    }
    out
}


proof fn lemma_nodes_index(es: Seq<IcuElement>)
    ensures
        nodes_of(es).len() == es.len(),
        forall|i: int| 0 <= i < es.len() ==> #[trigger] nodes_of(es)[i] == node_of(es[i]),
    decreases es.len(),
{
    if es.len() > 0 {
        lemma_nodes_index(es.drop_last());
    }
}

proof fn lemma_options_index(os: Seq<(String, Vec<IcuElement>)>)
    ensures
        options_of(os).len() == os.len(),
        forall|i: int|
            0 <= i < os.len() ==> #[trigger] options_of(os)[i] == (os[i].0@, nodes_of(os[i].1@)),
    decreases os.len(),
{
    if os.len() > 0 {
        lemma_options_index(os.drop_last());
    }
}

proof fn lemma_nodes_take(es: Seq<IcuElement>, k: int)
    requires
        0 <= k <= es.len(),
    ensures
        nodes_of(es.take(k)) == nodes_of(es).take(k),
{
    lemma_nodes_index(es);
    lemma_nodes_index(es.take(k));
    assert(nodes_of(es.take(k)) =~= nodes_of(es).take(k));
}

proof fn lemma_options_take(os: Seq<(String, Vec<IcuElement>)>, k: int)
    requires
        0 <= k <= os.len(),
    ensures
        options_of(os.take(k)) == options_of(os).take(k),
{
    lemma_options_index(os);
    lemma_options_index(os.take(k));
    assert(options_of(os.take(k)) =~= options_of(os).take(k));
}

proof fn lemma_literals_take_len(ns: Seq<IcuNode>, k: int)
    requires
        0 <= k <= ns.len(),
    ensures
        literals_of(ns.take(k)).len() <= literals_of(ns).len(),
    decreases ns.len(),
{
    if k < ns.len() {
        assert(ns.drop_last().take(k) =~= ns.take(k));
        lemma_literals_take_len(ns.drop_last(), k);
    } else {
        assert(ns.take(k) =~= ns);
    }
}

proof fn lemma_option_literals_take_len(os: Seq<(Seq<char>, Seq<IcuNode>)>, k: int)
    requires
        0 <= k <= os.len(),
    ensures
        literals_of_options(os.take(k)).len() <= literals_of_options(os).len(),
    decreases os.len(),
{
    if k < os.len() {
        assert(os.drop_last().take(k) =~= os.take(k));
        lemma_option_literals_take_len(os.drop_last(), k);
    } else {
        assert(os.take(k) =~= os);
    }
}

proof fn lemma_generic_in_exists(ns: Seq<IcuNode>)
    ensures
        generic_in(ns) == exists|i: int| 0 <= i < ns.len() && generic_at(#[trigger] ns[i]),
    decreases ns.len(),
{
    if ns.len() > 0 {
        lemma_generic_in_exists(ns.drop_last());
        if exists|i: int| 0 <= i < ns.len() && generic_at(#[trigger] ns[i]) {
            let i = choose|i: int| 0 <= i < ns.len() && generic_at(#[trigger] ns[i]);
            if i < ns.len() - 1 {
                assert(ns.drop_last()[i] == ns[i]);
            }
        }
        if generic_in(ns.drop_last()) {
            let i = choose|i: int|
                0 <= i < ns.drop_last().len() && generic_at(#[trigger] ns.drop_last()[i]);
            assert(ns[i] == ns.drop_last()[i]);
        }
    }
}

proof fn lemma_generic_options_exists(os: Seq<(Seq<char>, Seq<IcuNode>)>)
    ensures
        generic_in_branches(os) == exists|j: int|
            0 <= j < os.len() && (mixes_argument_and_text(#[trigger] os[j].1) || generic_in(
                os[j].1,
            )),
    decreases os.len(),
{
    if os.len() > 0 {
        let t = os.drop_last();
        lemma_generic_options_exists(t);
        if exists|j: int|
            0 <= j < os.len() && (mixes_argument_and_text(#[trigger] os[j].1) || generic_in(
                os[j].1,
            )) {
            let j = choose|j: int|
                0 <= j < os.len() && (mixes_argument_and_text(#[trigger] os[j].1) || generic_in(
                    os[j].1,
                ));
            if j < os.len() - 1 {
                assert(t[j] == os[j]);
            }
        }
        if generic_in_branches(t) {
            let j = choose|j: int|
                0 <= j < t.len() && (mixes_argument_and_text(#[trigger] t[j].1) || generic_in(
                    t[j].1,
                ));
            assert(os[j] == t[j]);
        }
    }
}

/// Whether the branch holds an `Argument` element.
fn has_argument(v: &Vec<IcuElement>) -> (r: bool)
    ensures
        r == exists|i: int| 0 <= i < nodes_of(v@).len() && #[trigger] nodes_of(v@)[i] is Argument,
{
    proof {
        lemma_nodes_index(v@);
    }
    let mut i: usize = 0;
    while i < v.len()
        invariant
            i <= v@.len(),
            nodes_of(v@).len() == v@.len(),
            forall|k: int| 0 <= k < v@.len() ==> #[trigger] nodes_of(v@)[k] == node_of(v@[k]),
            forall|k: int| 0 <= k < i ==> !(#[trigger] nodes_of(v@)[k] is Argument),
        decreases v.len() - i,
    {
        if matches!(v[i], IcuElement::Argument(_)) {
            assert(nodes_of(v@)[i as int] is Argument);
            return true;
        }
        assert(!(nodes_of(v@)[i as int] is Argument));
        i += 1;
    }
    false
}

/// Whether the branch holds a literal that is not all white space.
fn has_text(v: &Vec<IcuElement>) -> (r: bool)
    ensures
        r == exists|i: int|
            0 <= i < nodes_of(v@).len() && is_text_literal(#[trigger] nodes_of(v@)[i]),
{
    proof {
        lemma_nodes_index(v@);
    }
    let mut i: usize = 0;
    while i < v.len()
        invariant
            i <= v@.len(),
            nodes_of(v@).len() == v@.len(),
            forall|k: int| 0 <= k < v@.len() ==> #[trigger] nodes_of(v@)[k] == node_of(v@[k]),
            forall|k: int| 0 <= k < i ==> !is_text_literal(#[trigger] nodes_of(v@)[k]),
        decreases v.len() - i,
    {
        match &v[i] {
            IcuElement::Literal(s) => {
                if !blank(s.as_str()) {
                    assert(is_text_literal(nodes_of(v@)[i as int]));
                    return true;
                }
            },
            _ => {},
        }
        assert(!is_text_literal(nodes_of(v@)[i as int]));
        i += 1;
    }
    false
}

/// Returns true if any plural or select branch mixes a runtime `Argument` with
/// a non-whitespace `Literal` sibling — the `{# {unit}s}` pattern that cannot
/// be accurately translated without knowing the runtime value of the argument.
pub fn has_generic_plural(elements: &Vec<IcuElement>) -> (r: bool)
    ensures
        r == generic_in(nodes_of(elements@)),
    decreases elements@,
{
    proof {
        lemma_nodes_index(elements@);
        lemma_generic_in_exists(nodes_of(elements@));
    }
    let mut i: usize = 0;
    while i < elements.len()
        invariant
            i <= elements@.len(),
            nodes_of(elements@).len() == elements@.len(),
            forall|k: int|
                0 <= k < elements@.len() ==> #[trigger] nodes_of(elements@)[k] == node_of(
                    elements@[k],
                ),
            forall|k: int| 0 <= k < i ==> !generic_at(#[trigger] nodes_of(elements@)[k]),
        decreases elements.len() - i,
    {
        let found = match &elements[i] {
            IcuElement::Plural(_, opts, _, _) => generic_branches(opts),
            IcuElement::Select(_, opts) => generic_branches(opts),
            IcuElement::Tag(_, ch) => has_generic_plural(ch),
            _ => false,
        };
        assert(found == generic_at(nodes_of(elements@)[i as int]));
        if found {
            proof {
                lemma_generic_in_exists(nodes_of(elements@));
            }
            return true;
        }
        i += 1;
    }
    false
}

fn generic_branches(opts: &Vec<(String, Vec<IcuElement>)>) -> (r: bool)
    ensures
        r == generic_in_branches(options_of(opts@)),
    decreases opts@,
{
    proof {
        lemma_options_index(opts@);
        lemma_generic_options_exists(options_of(opts@));
    }
    let mut j: usize = 0;
    while j < opts.len()
        invariant
            j <= opts@.len(),
            options_of(opts@).len() == opts@.len(),
            forall|k: int|
                0 <= k < opts@.len() ==> #[trigger] options_of(opts@)[k] == (
                    opts@[k].0@,
                    nodes_of(opts@[k].1@),
                ),
            forall|k: int|
                0 <= k < j ==> !(mixes_argument_and_text(#[trigger] options_of(opts@)[k].1)
                    || generic_in(options_of(opts@)[k].1)),
        decreases opts.len() - j,
    {
        let has_arg = has_argument(&opts[j].1);
        let has_txt = has_text(&opts[j].1);
        if has_arg && has_txt {
            assert(mixes_argument_and_text(options_of(opts@)[j as int].1));
            proof {
                lemma_generic_options_exists(options_of(opts@));
            }
            return true;
        }
        if has_generic_plural(&opts[j].1) {
            assert(generic_in(options_of(opts@)[j as int].1));
            proof {
                lemma_generic_options_exists(options_of(opts@));
            }
            return true;
        }
        j += 1;
    }
    false
}

/// Collects all argument names of a message (`Argument`, `Plural`, `Select`,
/// `Number`, `Date`, `Time` and `Tag` values), depth first.
pub fn collect_arg_names(elements: &Vec<IcuElement>) -> (r: Vec<String>)
    ensures
        r.deep_view() == arg_names_of(nodes_of(elements@)),
    decreases elements@,
{
    let mut out: Vec<String> = Vec::new();
    let mut i: usize = 0;
    while i < elements.len()
        invariant
            i <= elements@.len(),
            out.deep_view() == arg_names_of(nodes_of(elements@.take(i as int))),
        decreases elements.len() - i,
    {
        proof {
            lemma_nodes_push(elements@, i as int);
            lemma_push_drop(nodes_of(elements@.take(i as int)), node_of(elements@[i as int]));
        }
        let ghost before = out.deep_view();
        match &elements[i] {
            IcuElement::Argument(a) => {
                out.push(a.clone());
                assert(out.deep_view() =~= before + seq![a@]);
            },
            IcuElement::Plural(v, opts, _, _) => {
                out.push(v.clone());
                let mut sub = collect_arg_names_of_options(opts);
                out.append(&mut sub);
                assert(out.deep_view() =~= before + (seq![v@] + arg_names_of_options(
                    options_of(opts@),
                )));
            },
            IcuElement::Select(v, opts) => {
                out.push(v.clone());
                let mut sub = collect_arg_names_of_options(opts);
                out.append(&mut sub);
                assert(out.deep_view() =~= before + (seq![v@] + arg_names_of_options(
                    options_of(opts@),
                )));
            },
            IcuElement::Number(v, _) => {
                out.push(v.clone());
                assert(out.deep_view() =~= before + seq![v@]);
            },
            IcuElement::Date(v, _) => {
                out.push(v.clone());
                assert(out.deep_view() =~= before + seq![v@]);
            },
            IcuElement::Time(v, _) => {
                out.push(v.clone());
                assert(out.deep_view() =~= before + seq![v@]);
            },
            IcuElement::Tag(v, ch) => {
                out.push(v.clone());
                let mut sub = collect_arg_names(ch);
                out.append(&mut sub);
                assert(out.deep_view() =~= before + (seq![v@] + arg_names_of(nodes_of(ch@))));
            },
            _ => {
                assert(out.deep_view() =~= before + arg_names_in(node_of(elements@[i as int])));
            },
        }
        assert(out.deep_view() == before + arg_names_in(node_of(elements@[i as int])));
        i += 1;
    }
    proof {
        assert(elements@.take(elements@.len() as int) =~= elements@);
    }
    out
}

fn collect_arg_names_of_options(opts: &Vec<(String, Vec<IcuElement>)>) -> (r: Vec<String>)
    ensures
        r.deep_view() == arg_names_of_options(options_of(opts@)),
    decreases opts@,
{
    let mut out: Vec<String> = Vec::new();
    let mut j: usize = 0;
    while j < opts.len()
        invariant
            j <= opts@.len(),
            out.deep_view() == arg_names_of_options(options_of(opts@.take(j as int))),
        decreases opts.len() - j,
    {
        proof {
            lemma_options_push(opts@, j as int);
            lemma_push_drop(
                options_of(opts@.take(j as int)),
                (opts@[j as int].0@, nodes_of(opts@[j as int].1@)),
            );
        }
        let ghost before = out.deep_view();
        let mut sub = collect_arg_names(&opts[j].1);
        out.append(&mut sub);
        assert(out.deep_view() =~= before + arg_names_of(nodes_of(opts@[j as int].1@)));
        j += 1;
    }
    proof {
        assert(opts@.take(opts@.len() as int) =~= opts@);
    }
    out
}

proof fn lemma_relabel_push(ns: Seq<IcuNode>, n: IcuNode, lits: Seq<Seq<char>>, at: int)
    ensures
        relabel(ns.push(n), lits, at) == relabel(ns, lits, at).push(
            relabel_node(n, lits, at + literals_of(ns).len()),
        ),
        literals_of(ns.push(n)) == literals_of(ns) + literals_in(n),
{
    lemma_push_drop(ns, n);
}

proof fn lemma_relabel_options_push(
    os: Seq<(Seq<char>, Seq<IcuNode>)>,
    o: (Seq<char>, Seq<IcuNode>),
    lits: Seq<Seq<char>>,
    at: int,
)
    ensures
        relabel_options(os.push(o), lits, at) == relabel_options(os, lits, at).push(
            (o.0, relabel(o.1, lits, at + literals_of_options(os).len())),
        ),
        literals_of_options(os.push(o)) == literals_of_options(os) + literals_of(o.1),
{
    lemma_push_drop(os, o);
}

proof fn lemma_nodes_of_push(es: Seq<IcuElement>, e: IcuElement)
    ensures
        nodes_of(es.push(e)) == nodes_of(es).push(node_of(e)),
{
    lemma_push_drop(es, e);
}

proof fn lemma_options_of_push(os: Seq<(String, Vec<IcuElement>)>, o: (String, Vec<IcuElement>))
    ensures
        options_of(os.push(o)) == options_of(os).push((o.0@, nodes_of(o.1@))),
{
    lemma_push_drop(os, o);
}

/// A copy of a number style.
fn copy_number_style(st: &NumberStyle) -> (r: NumberStyle)
    ensures
        number_style_view(r) == number_style_view(*st),
{
    match st {
        NumberStyle::Text(t) => NumberStyle::Text(t.clone()),
        NumberStyle::Skeleton(ts) => {
            let mut out: Vec<(String, Vec<String>)> = Vec::new();
            let mut i: usize = 0;
            while i < ts.len()
                invariant
                    i <= ts@.len(),
                    out@.len() == i,
                    out.deep_view() =~= ts.deep_view().take(i as int),
                decreases ts.len() - i,
            {
                let stem = ts[i].0.clone();
                let opts = ts[i].1.clone();
                proof {
                    assert(opts.deep_view() =~= ts@[i as int].1.deep_view());
                }
                let ghost prev = out@;
                let ghost prev_dv = out.deep_view();
                out.push((stem, opts));
                proof {
                    assert(out@ =~= prev.push((stem, opts)));
                    assert(ts.deep_view()[i as int] == (ts@[i as int].0@, ts@[i as int].1.deep_view()));
                    assert(out.deep_view()[i as int] == (stem@, opts.deep_view()));
                    assert forall|k: int| 0 <= k < i implies out.deep_view()[k] == ts.deep_view()[k] by {
                        assert(out@[k] == prev[k]);
                        assert(out.deep_view()[k] == prev[k].deep_view());
                        assert(prev_dv[k] == prev[k].deep_view());
                    }
                }
                assert(out.deep_view() =~= ts.deep_view().take(i + 1));
                i += 1;
            }
            assert(ts.deep_view().take(ts@.len() as int) =~= ts.deep_view());
            NumberStyle::Skeleton(out)
        },
    }
}

/// A copy of a date or time style.
fn copy_date_style(st: &DateTimeStyle) -> (r: DateTimeStyle)
    ensures
        date_style_view(r) == date_style_view(*st),
{
    match st {
        DateTimeStyle::Text(t) => DateTimeStyle::Text(t.clone()),
        DateTimeStyle::Skeleton(p) => DateTimeStyle::Skeleton(p.clone()),
    }
}

/// The elements with their literals, counted from `at`, replaced by `translated`.
fn relabeled(elements: &Vec<IcuElement>, translated: &Vec<String>, at: usize) -> (r: (
    Vec<IcuElement>,
    usize,
))
    requires
        at + literals_of(nodes_of(elements@)).len() <= usize::MAX,
    ensures
        nodes_of(r.0@) == relabel(nodes_of(elements@), translated.deep_view(), at as int),
        r.1 == at + literals_of(nodes_of(elements@)).len(),
    decreases elements@,
{
    let ghost orig = elements@;
    let ghost lits = translated.deep_view();
    let n = elements.len();
    let mut out: Vec<IcuElement> = Vec::new();
    let mut idx = at;
    let mut i: usize = 0;
    while i < n
        invariant
            n == orig.len(),
            orig == elements@,
            i <= n,
            nodes_of(out@) == relabel(nodes_of(orig.take(i as int)), lits, at as int),
            idx == at + literals_of(nodes_of(orig.take(i as int))).len(),
            at + literals_of(nodes_of(orig)).len() <= usize::MAX,
            lits == translated.deep_view(),
        decreases n - i,
    {
        proof {
            lemma_nodes_index(orig);
            lemma_nodes_push(orig, i as int);
            lemma_nodes_take(orig, i + 1);
            lemma_literals_take_len(nodes_of(orig), i + 1);
            lemma_relabel_push(nodes_of(orig.take(i as int)), node_of(orig[i as int]), lits, at as int);
        }
        let ne = match &elements[i] {
            IcuElement::Literal(s) => {
                let v = if idx < translated.len() {
                    translated[idx].clone()
                } else {
                    s.clone()
                };
                idx = idx + 1;
                IcuElement::Literal(v)
            },
            IcuElement::Argument(a) => IcuElement::Argument(a.clone()),
            IcuElement::Number(v, st) => IcuElement::Number(
                v.clone(),
                match st {
                    Some(x) => Some(copy_number_style(x)),
                    None => None,
                },
            ),
            IcuElement::Date(v, st) => IcuElement::Date(
                v.clone(),
                match st {
                    Some(x) => Some(copy_date_style(x)),
                    None => None,
                },
            ),
            IcuElement::Time(v, st) => IcuElement::Time(
                v.clone(),
                match st {
                    Some(x) => Some(copy_date_style(x)),
                    None => None,
                },
            ),
            IcuElement::Select(v, opts) => {
                let (no, ni) = relabeled_options(opts, translated, idx);
                idx = ni;
                IcuElement::Select(v.clone(), no)
            },
            IcuElement::Plural(v, opts, off, ord) => {
                let (no, ni) = relabeled_options(opts, translated, idx);
                idx = ni;
                IcuElement::Plural(v.clone(), no, *off, *ord)
            },
            IcuElement::Pound => IcuElement::Pound,
            IcuElement::Tag(v, ch) => {
                let (nc, ni) = relabeled(ch, translated, idx);
                idx = ni;
                IcuElement::Tag(v.clone(), nc)
            },
        };
        proof {
            lemma_nodes_of_push(out@, ne);
        }
        out.push(ne);
        i += 1;
    }
    proof {
        assert(orig.take(n as int) =~= orig);
    }
    (out, idx)
}

fn relabeled_options(
    opts: &Vec<(String, Vec<IcuElement>)>,
    translated: &Vec<String>,
    at: usize,
) -> (r: (Vec<(String, Vec<IcuElement>)>, usize))
    requires
        at + literals_of_options(options_of(opts@)).len() <= usize::MAX,
    ensures
        options_of(r.0@) == relabel_options(
            options_of(opts@),
            translated.deep_view(),
            at as int,
        ),
        r.1 == at + literals_of_options(options_of(opts@)).len(),
    decreases opts@,
{
    let ghost orig = opts@;
    let ghost lits = translated.deep_view();
    let n = opts.len();
    let mut out: Vec<(String, Vec<IcuElement>)> = Vec::new();
    let mut idx = at;
    let mut j: usize = 0;
    while j < n
        invariant
            n == orig.len(),
            orig == opts@,
            j <= n,
            options_of(out@) == relabel_options(options_of(orig.take(j as int)), lits, at as int),
            idx == at + literals_of_options(options_of(orig.take(j as int))).len(),
            at + literals_of_options(options_of(orig)).len() <= usize::MAX,
            lits == translated.deep_view(),
        decreases n - j,
    {
        proof {
            lemma_options_index(orig);
            lemma_options_push(orig, j as int);
            lemma_options_take(orig, j + 1);
            lemma_option_literals_take_len(options_of(orig), j + 1);
            lemma_relabel_options_push(
                options_of(orig.take(j as int)),
                (orig[j as int].0@, nodes_of(orig[j as int].1@)),
                lits,
                at as int,
            );
        }
        let (nv, ni) = relabeled(&opts[j].1, translated, idx);
        idx = ni;
        let k = opts[j].0.clone();
        proof {
            lemma_options_of_push(out@, (k, nv));
        }
        out.push((k, nv));
        j += 1;
    }
    proof {
        assert(orig.take(n as int) =~= orig);
    }
    (out, idx)
}

/// Writes translated literal values back into a message in the same depth-first
/// order as [`collect_literals`]: the literal at position `idx` (counted from the
/// start of `translated`) becomes `translated[idx]` where that exists; `idx` ends
/// advanced past every literal of the message.
pub fn apply_literals(elements: &mut Vec<IcuElement>, translated: &Vec<String>, idx: &mut usize)
    requires
        *old(idx) + literals_of(nodes_of(old(elements)@)).len() <= usize::MAX,
    ensures
        nodes_of(final(elements)@) == relabel(
            nodes_of(old(elements)@),
            translated.deep_view(),
            *old(idx) as int,
        ),
        *final(idx) == *old(idx) + literals_of(nodes_of(old(elements)@)).len(),
{
    let (r, n) = relabeled(elements, translated, *idx);
    *elements = r;
    *idx = n;
}

// ---------------------------------------------------------------------------
// Laws of literal replacement.

/// The entry of `lits` at position `p`, or `d` where `lits` has none.
pub open spec fn pick(lits: Seq<Seq<char>>, p: int, d: Seq<char>) -> Seq<char> {
    if 0 <= p < lits.len() {
        lits[p]
    } else {
        d
    }
}

/// `old` with its entries, counted from position `at` of `lits`, replaced by
/// those of `lits` where they exist.
pub open spec fn replaced(old: Seq<Seq<char>>, lits: Seq<Seq<char>>, at: int) -> Seq<Seq<char>> {
    Seq::new(old.len(), |k: int| pick(lits, at + k, old[k]))
}

proof fn lemma_replaced_concat(a: Seq<Seq<char>>, b: Seq<Seq<char>>, lits: Seq<Seq<char>>, at: int)
    ensures
        replaced(a + b, lits, at) == replaced(a, lits, at) + replaced(b, lits, at + a.len()),
{
    assert(replaced(a + b, lits, at) =~= replaced(a, lits, at) + replaced(b, lits, at + a.len()));
}

/// Reading the literals after replacing them gives the replacements, and the
/// old texts where `lits` has no entry.
pub proof fn lemma_relabel_literals(ns: Seq<IcuNode>, lits: Seq<Seq<char>>, at: int)
    ensures
        literals_of(relabel(ns, lits, at)) == replaced(literals_of(ns), lits, at),
    decreases ns,
{
    if ns.len() == 0 {
        assert(replaced(literals_of(ns), lits, at) =~= Seq::<Seq<char>>::empty());
    } else {
        let init = ns.drop_last();
        let last = ns.last();
        let at2 = at + literals_of(init).len();
        lemma_relabel_literals(init, lits, at);
        lemma_relabel_node_literals(last, lits, at2);
        lemma_push_drop(relabel(init, lits, at), relabel_node(last, lits, at2));
        lemma_replaced_concat(literals_of(init), literals_in(last), lits, at);
    }
}

/// [`lemma_relabel_literals`] for one element.
pub proof fn lemma_relabel_node_literals(n: IcuNode, lits: Seq<Seq<char>>, at: int)
    ensures
        literals_in(relabel_node(n, lits, at)) == replaced(literals_in(n), lits, at),
    decreases n,
{
    match n {
        IcuNode::Literal(s) => {
            assert(replaced(seq![s], lits, at) =~= seq![pick(lits, at, s)]);
        },
        IcuNode::Select(_, os) => {
            lemma_relabel_options_literals(os, lits, at);
        },
        IcuNode::Plural(_, os, _, _) => {
            lemma_relabel_options_literals(os, lits, at);
        },
        IcuNode::Tag(_, ch) => {
            lemma_relabel_literals(ch, lits, at);
        },
        _ => {
            assert(replaced(literals_in(n), lits, at) =~= Seq::<Seq<char>>::empty());
        },
    }
}

/// [`lemma_relabel_literals`] for the branches of a `select` or `plural`.
pub proof fn lemma_relabel_options_literals(
    os: Seq<(Seq<char>, Seq<IcuNode>)>,
    lits: Seq<Seq<char>>,
    at: int,
)
    ensures
        literals_of_options(relabel_options(os, lits, at)) == replaced(
            literals_of_options(os),
            lits,
            at,
        ),
    decreases os,
{
    if os.len() == 0 {
        assert(replaced(literals_of_options(os), lits, at) =~= Seq::<Seq<char>>::empty());
    } else {
        let init = os.drop_last();
        let last = os.last();
        let at2 = at + literals_of_options(init).len();
        lemma_relabel_options_literals(init, lits, at);
        lemma_relabel_literals(last.1, lits, at2);
        lemma_push_drop(relabel_options(init, lits, at), (last.0, relabel(last.1, lits, at2)));
        lemma_replaced_concat(literals_of_options(init), literals_of(last.1), lits, at);
    }
}

/// Replacing literals keeps every argument name, in order.
pub proof fn lemma_relabel_arg_names(ns: Seq<IcuNode>, lits: Seq<Seq<char>>, at: int)
    ensures
        arg_names_of(relabel(ns, lits, at)) == arg_names_of(ns),
    decreases ns,
{
    if ns.len() > 0 {
        let init = ns.drop_last();
        let last = ns.last();
        let at2 = at + literals_of(init).len();
        lemma_relabel_arg_names(init, lits, at);
        lemma_relabel_node_arg_names(last, lits, at2);
        lemma_push_drop(relabel(init, lits, at), relabel_node(last, lits, at2));
    }
}

/// [`lemma_relabel_arg_names`] for one element.
pub proof fn lemma_relabel_node_arg_names(n: IcuNode, lits: Seq<Seq<char>>, at: int)
    ensures
        arg_names_in(relabel_node(n, lits, at)) == arg_names_in(n),
    decreases n,
{
    match n {
        IcuNode::Select(_, os) => {
            lemma_relabel_options_arg_names(os, lits, at);
        },
        IcuNode::Plural(_, os, _, _) => {
            lemma_relabel_options_arg_names(os, lits, at);
        },
        IcuNode::Tag(_, ch) => {
            lemma_relabel_arg_names(ch, lits, at);
        },
        _ => {},
    }
}

/// [`lemma_relabel_arg_names`] for the branches of a `select` or `plural`.
pub proof fn lemma_relabel_options_arg_names(
    os: Seq<(Seq<char>, Seq<IcuNode>)>,
    lits: Seq<Seq<char>>,
    at: int,
)
    ensures
        arg_names_of_options(relabel_options(os, lits, at)) == arg_names_of_options(os),
    decreases os,
{
    if os.len() > 0 {
        let init = os.drop_last();
        let last = os.last();
        let at2 = at + literals_of_options(init).len();
        lemma_relabel_options_arg_names(init, lits, at);
        lemma_relabel_arg_names(last.1, lits, at2);
        lemma_push_drop(relabel_options(init, lits, at), (last.0, relabel(last.1, lits, at2)));
    }
}

/// Writing back the very literals a message has leaves it unchanged.
pub proof fn lemma_relabel_same(ns: Seq<IcuNode>, lits: Seq<Seq<char>>, at: int)
    requires
        0 <= at,
        at + literals_of(ns).len() <= lits.len(),
        lits.subrange(at, at + literals_of(ns).len()) == literals_of(ns),
    ensures
        relabel(ns, lits, at) == ns,
    decreases ns,
{
    if ns.len() > 0 {
        let init = ns.drop_last();
        let last = ns.last();
        let at2 = at + literals_of(init).len();
        let all = literals_of(ns);
        assert(all == literals_of(init) + literals_in(last));
        assert(lits.subrange(at, at2) =~= literals_of(init)) by {
            assert forall|k: int| 0 <= k < literals_of(init).len() implies lits.subrange(
                at,
                at2,
            )[k] == literals_of(init)[k] by {
                assert(lits.subrange(at, at + all.len())[k] == all[k]);
            }
        }
        assert(lits.subrange(at2, at2 + literals_in(last).len()) =~= literals_in(last)) by {
            assert forall|k: int| 0 <= k < literals_in(last).len() implies lits.subrange(
                at2,
                at2 + literals_in(last).len(),
            )[k] == literals_in(last)[k] by {
                assert(lits.subrange(at, at + all.len())[literals_of(init).len() + k] == all[
                    literals_of(init).len() + k
                ]);
            }
        }
        lemma_relabel_same(init, lits, at);
        lemma_relabel_node_same(last, lits, at2);
        assert(init.push(last) =~= ns);
    }
}

/// [`lemma_relabel_same`] for one element.
pub proof fn lemma_relabel_node_same(n: IcuNode, lits: Seq<Seq<char>>, at: int)
    requires
        0 <= at,
        at + literals_in(n).len() <= lits.len(),
        lits.subrange(at, at + literals_in(n).len()) == literals_in(n),
    ensures
        relabel_node(n, lits, at) == n,
    decreases n,
{
    match n {
        IcuNode::Literal(s) => {
            assert(lits.subrange(at, at + 1)[0] == s);
        },
        IcuNode::Select(_, os) => {
            lemma_relabel_options_same(os, lits, at);
        },
        IcuNode::Plural(_, os, _, _) => {
            lemma_relabel_options_same(os, lits, at);
        },
        IcuNode::Tag(_, ch) => {
            lemma_relabel_same(ch, lits, at);
        },
        _ => {},
    }
}

/// [`lemma_relabel_same`] for the branches of a `select` or `plural`.
pub proof fn lemma_relabel_options_same(
    os: Seq<(Seq<char>, Seq<IcuNode>)>,
    lits: Seq<Seq<char>>,
    at: int,
)
    requires
        0 <= at,
        at + literals_of_options(os).len() <= lits.len(),
        lits.subrange(at, at + literals_of_options(os).len()) == literals_of_options(os),
    ensures
        relabel_options(os, lits, at) == os,
    decreases os,
{
    if os.len() > 0 {
        let init = os.drop_last();
        let last = os.last();
        let at2 = at + literals_of_options(init).len();
        let all = literals_of_options(os);
        assert(all == literals_of_options(init) + literals_of(last.1));
        assert(lits.subrange(at, at2) =~= literals_of_options(init)) by {
            assert forall|k: int| 0 <= k < literals_of_options(init).len() implies lits.subrange(
                at,
                at2,
            )[k] == literals_of_options(init)[k] by {
                assert(lits.subrange(at, at + all.len())[k] == all[k]);
            }
        }
        assert(lits.subrange(at2, at2 + literals_of(last.1).len()) =~= literals_of(last.1)) by {
            assert forall|k: int| 0 <= k < literals_of(last.1).len() implies lits.subrange(
                at2,
                at2 + literals_of(last.1).len(),
            )[k] == literals_of(last.1)[k] by {
                assert(lits.subrange(at, at + all.len())[literals_of_options(init).len() + k]
                    == all[literals_of_options(init).len() + k]);
            }
        }
        lemma_relabel_options_same(init, lits, at);
        lemma_relabel_same(last.1, lits, at2);
        assert(init.push((last.0, last.1)) =~= os);
    }
}

/// Collecting the literals of a message and writing them straight back gives
/// the message unchanged.
pub proof fn lemma_collect_apply_roundtrip(ns: Seq<IcuNode>)
    ensures
        relabel(ns, literals_of(ns), 0) == ns,
{
    assert(literals_of(ns).subrange(0, literals_of(ns).len() as int) =~= literals_of(ns));
    lemma_relabel_same(ns, literals_of(ns), 0);
}

// ---------------------------------------------------------------------------
// Laws over the shape of a message.

/// A whole sequence of texts sits inside a longer one at some offset.
proof fn lemma_contains_concat(a: Seq<Seq<char>>, b: Seq<Seq<char>>, x: Seq<char>)
    ensures
        a.contains(x) ==> (a + b).contains(x),
        b.contains(x) ==> (a + b).contains(x),
        (a + b).contains(x) ==> a.contains(x) || b.contains(x),
{
    if a.contains(x) {
        let k = choose|k: int| 0 <= k < a.len() && a[k] == x;
        assert((a + b)[k] == x);
    }
    if b.contains(x) {
        let k = choose|k: int| 0 <= k < b.len() && b[k] == x;
        assert((a + b)[a.len() + k] == x);
    }
    if (a + b).contains(x) {
        let k = choose|k: int| 0 <= k < (a + b).len() && (a + b)[k] == x;
        if k < a.len() {
            assert(a[k] == x);
        } else {
            assert(b[k - a.len()] == x);
        }
    }
}

/// The literals of one element are among those of the message that holds it.
proof fn lemma_literals_of_element(ns: Seq<IcuNode>, i: int, x: Seq<char>)
    requires
        0 <= i < ns.len(),
        literals_in(ns[i]).contains(x),
    ensures
        literals_of(ns).contains(x),
    decreases ns.len(),
{
    let t = ns.drop_last();
    if i < ns.len() - 1 {
        assert(t[i] == ns[i]);
        lemma_literals_of_element(t, i, x);
        lemma_contains_concat(literals_of(t), literals_in(ns.last()), x);
    } else {
        lemma_contains_concat(literals_of(t), literals_in(ns.last()), x);
    }
}

/// The literals of one branch are among those of all the branches.
proof fn lemma_literals_of_branch(os: Seq<(Seq<char>, Seq<IcuNode>)>, j: int, x: Seq<char>)
    requires
        0 <= j < os.len(),
        literals_of(os[j].1).contains(x),
    ensures
        literals_of_options(os).contains(x),
    decreases os.len(),
{
    let t = os.drop_last();
    if j < os.len() - 1 {
        assert(t[j] == os[j]);
        lemma_literals_of_branch(t, j, x);
    }
    lemma_contains_concat(literals_of_options(t), literals_of(os.last().1), x);
}

/// The names of one element are among those of the message that holds it.
proof fn lemma_names_of_element(ns: Seq<IcuNode>, i: int, x: Seq<char>)
    requires
        0 <= i < ns.len(),
        arg_names_in(ns[i]).contains(x),
    ensures
        arg_names_of(ns).contains(x),
    decreases ns.len(),
{
    let t = ns.drop_last();
    if i < ns.len() - 1 {
        assert(t[i] == ns[i]);
        lemma_names_of_element(t, i, x);
    }
    lemma_contains_concat(arg_names_of(t), arg_names_in(ns.last()), x);
}

/// The names of one branch are among those of all the branches.
proof fn lemma_names_of_branch(os: Seq<(Seq<char>, Seq<IcuNode>)>, j: int, x: Seq<char>)
    requires
        0 <= j < os.len(),
        arg_names_of(os[j].1).contains(x),
    ensures
        arg_names_of_options(os).contains(x),
    decreases os.len(),
{
    let t = os.drop_last();
    if j < os.len() - 1 {
        assert(t[j] == os[j]);
        lemma_names_of_branch(t, j, x);
    }
    lemma_contains_concat(arg_names_of_options(t), arg_names_of(os.last().1), x);
}

/// Element `k` of branch `j` of a `select` or `plural` element is `inner`.
pub open spec fn branch_holds(n: IcuNode, j: int, k: int, inner: IcuNode) -> bool {
    match n {
        IcuNode::Select(_, os) => 0 <= j < os.len() && 0 <= k < os[j].1.len() && os[j].1[k] == inner,
        IcuNode::Plural(_, os, _, _) => 0 <= j < os.len() && 0 <= k < os[j].1.len() && os[j].1[k]
            == inner,
        _ => false,
    }
}

/// The name an element carries: that of an argument, a `number`, `date` or
/// `time` argument, a `select`, a `plural` or a tag.
pub open spec fn element_name(n: IcuNode) -> Option<Seq<char>> {
    match n {
        IcuNode::Argument(v) => Some(v),
        IcuNode::Number(v, _) => Some(v),
        IcuNode::Date(v, _) => Some(v),
        IcuNode::Time(v, _) => Some(v),
        IcuNode::Select(v, _) => Some(v),
        IcuNode::Plural(v, _, _, _) => Some(v),
        IcuNode::Tag(v, _) => Some(v),
        _ => None,
    }
}

/// Every literal of a message, at the top or inside a branch of a `select` or
/// `plural`, is one of the literals collected for translation.
pub proof fn lemma_literals_collected(ns: Seq<IcuNode>, i: int, j: int, k: int, s: Seq<char>)
    requires
        0 <= i < ns.len(),
        ns[i] == IcuNode::Literal(s) || branch_holds(ns[i], j, k, IcuNode::Literal(s)),
    ensures
        literals_of(ns).contains(s),
{
    if ns[i] == IcuNode::Literal(s) {
        assert(literals_in(ns[i]) =~= seq![s]);
        assert(literals_in(ns[i])[0] == s);
    } else {
        match ns[i] {
            IcuNode::Select(_, os) => {
                assert(literals_in(os[j].1[k]) =~= seq![s]);
                assert(literals_in(os[j].1[k])[0] == s);
                lemma_literals_of_element(os[j].1, k, s);
                lemma_literals_of_branch(os, j, s);
            },
            IcuNode::Plural(_, os, _, _) => {
                assert(literals_in(os[j].1[k]) =~= seq![s]);
                assert(literals_in(os[j].1[k])[0] == s);
                lemma_literals_of_element(os[j].1, k, s);
                lemma_literals_of_branch(os, j, s);
            },
            _ => {},
        }
    }
    lemma_literals_of_element(ns, i, s);
}

/// Writing literals back reaches every literal of a message, inside `select`
/// and `plural` branches too: where `lits` has an entry for each literal, every
/// literal of the result is one of the entries.
pub proof fn lemma_relabel_reaches_branches(
    ns: Seq<IcuNode>,
    lits: Seq<Seq<char>>,
    i: int,
    j: int,
    k: int,
    t: Seq<char>,
)
    requires
        literals_of(ns).len() <= lits.len(),
        0 <= i < relabel(ns, lits, 0).len(),
        relabel(ns, lits, 0)[i] == IcuNode::Literal(t) || branch_holds(
            relabel(ns, lits, 0)[i],
            j,
            k,
            IcuNode::Literal(t),
        ),
    ensures
        lits.contains(t),
{
    let r = relabel(ns, lits, 0);
    lemma_literals_collected(r, i, j, k, t);
    lemma_relabel_literals(ns, lits, 0);
    let old = literals_of(ns);
    let p = choose|p: int| 0 <= p < literals_of(r).len() && literals_of(r)[p] == t;
    assert(replaced(old, lits, 0)[p] == pick(lits, p, old[p]));
    assert(lits[p] == t);
}

/// Every name an element carries, at the top or inside a branch of a `select`
/// or `plural`, is one of the message's argument names.
pub proof fn lemma_names_collected(ns: Seq<IcuNode>, i: int, j: int, k: int, inner: IcuNode, v: Seq<char>)
    requires
        0 <= i < ns.len(),
        element_name(ns[i]) == Some(v) || (branch_holds(ns[i], j, k, inner) && element_name(inner)
            == Some(v)),
    ensures
        arg_names_of(ns).contains(v),
{
    if element_name(ns[i]) == Some(v) {
        assert(arg_names_in(ns[i])[0] == v);
    } else {
        match ns[i] {
            IcuNode::Select(w, os) => {
                assert(arg_names_in(os[j].1[k])[0] == v);
                lemma_names_of_element(os[j].1, k, v);
                lemma_names_of_branch(os, j, v);
                lemma_contains_concat(seq![w], arg_names_of_options(os), v);
            },
            IcuNode::Plural(w, os, _, _) => {
                assert(arg_names_in(os[j].1[k])[0] == v);
                lemma_names_of_element(os[j].1, k, v);
                lemma_names_of_branch(os, j, v);
                lemma_contains_concat(seq![w], arg_names_of_options(os), v);
            },
            _ => {},
        }
    }
    lemma_names_of_element(ns, i, v);
}

} // verus!
