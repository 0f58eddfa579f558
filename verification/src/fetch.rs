//! Fetch requests: predicates (after `NSPredicate`), sort descriptors (after
//! `NSSortDescriptor`), and the steps that filter, sort and page objects.
//!
//! Where a comparison is numeric, both texts are read as `f64`.
//! Floating point stays outside this library: callers hand in, for each text
//! that is compared, its `NumKey` (the parsed number, mapped to an integer
//! that orders as the number does), or `None` when the text is no number.

use vstd::prelude::*;

use crate::entity::{ManagedObject, ObjectView};
use crate::error::CoreDataError;
use crate::text::{
    begins_with, chars_eq, chars_of, compare_text, concat, contains_chars, ends_with_chars,
    finishes_with, has_part, join_from, join_space, lowercase, lowercase_of, pieces, split_on,
    split_white, starts_with_chars, string_of, strip, strip_chars, text_order, texts_of, trim_white,
    words, Order,
};
use crate::assoc::lookup;
use crate::value::{scalar_text_of, Val, Value};

verus! {

broadcast use vstd::string::group_string_axioms;

/// The comparison a predicate makes.
#[derive(PartialEq, Eq, Structural, Clone, Copy, Debug)]
pub enum PredicateOperator {
    Equal,
    NotEqual,
    LessThan,
    LessThanOrEqual,
    GreaterThan,
    GreaterThanOrEqual,
    Contains,
    BeginsWith,
    EndsWith,
    In,
}

/// A text read as an `f64`: `NotANumber` for NaN, else `Number(k)` where
/// `k` orders as the number does (equal numbers, `0.0` and `-0.0` among
/// them, have equal keys).
#[derive(PartialEq, Eq, Structural, Clone, Copy, Debug)]
pub enum NumKey {
    NotANumber,
    Number(u64),
}

/// A condition on one attribute of an object.
#[derive(Debug)]
pub struct Predicate {
    pub key: String,
    pub op: PredicateOperator,
    pub value: String,
    /// Compare texts after lowercasing both sides.
    pub case_insensitive: bool,
}

/// What a predicate is, as mathematics.
pub struct PredicateView {
    pub key: Seq<char>,
    pub op: PredicateOperator,
    pub value: Seq<char>,
    pub case_insensitive: bool,
}

impl View for Predicate {
    type V = PredicateView;

    open spec fn view(&self) -> PredicateView {
        PredicateView {
            key: self.key@,
            op: self.op,
            value: self.value@,
            case_insensitive: self.case_insensitive,
        }
    }
}

impl Clone for Predicate {
    fn clone(&self) -> (r: Predicate)
        ensures
            r@ == self@,
    {
        Predicate {
            key: self.key.clone(),
            op: self.op,
            value: self.value.clone(),
            case_insensitive: self.case_insensitive,
        }
    }
}

/// `a < b` for numbers (false when either is NaN).
pub open spec fn num_less(a: NumKey, b: NumKey) -> bool {
    a is Number && b is Number && a->Number_0 < b->Number_0
}

/// `a <= b` for numbers (false when either is NaN).
pub open spec fn num_at_most(a: NumKey, b: NumKey) -> bool {
    a is Number && b is Number && a->Number_0 <= b->Number_0
}

/// The texts of the `In` list: the value split at commas, each piece trimmed.
pub open spec fn in_list(r: Seq<char>) -> Seq<Seq<char>> {
    pieces(r, ',').map_values(|p: Seq<char>| trim_white(p))
}

/// Whether `l OP r` holds, given the numeric readings of `l` and `r`.
/// The ordering operators compare numbers when both texts are numbers,
/// else texts; the others always compare texts.
pub open spec fn op_holds(
    op: PredicateOperator,
    l: Seq<char>,
    r: Seq<char>,
    lk: Option<NumKey>,
    rk: Option<NumKey>,
) -> bool {
    let numeric = lk is Some && rk is Some;
    match op {
        PredicateOperator::Equal => l == r,
        PredicateOperator::NotEqual => l != r,
        PredicateOperator::LessThan => if numeric {
            num_less(lk->0, rk->0)
        } else {
            text_order(l, r) == Order::Less
        },
        PredicateOperator::LessThanOrEqual => if numeric {
            num_at_most(lk->0, rk->0)
        } else {
            text_order(l, r) != Order::Greater
        },
        PredicateOperator::GreaterThan => if numeric {
            num_less(rk->0, lk->0)
        } else {
            text_order(l, r) == Order::Greater
        },
        PredicateOperator::GreaterThanOrEqual => if numeric {
            num_at_most(rk->0, lk->0)
        } else {
            text_order(l, r) != Order::Less
        },
        PredicateOperator::Contains => has_part(l, r),
        PredicateOperator::BeginsWith => begins_with(l, r),
        PredicateOperator::EndsWith => finishes_with(l, r),
        PredicateOperator::In => in_list(r).contains(l),
    }
}

/// A text as the predicate compares it: lowercased when case-insensitive.
pub open spec fn normalized(ci: bool, s: Seq<char>) -> Seq<char> {
    if ci {
        lowercase_of(s)
    } else {
        s
    }
}

/// The operator a token of the format names.
pub open spec fn op_named(t: Seq<char>) -> Option<PredicateOperator> {
    if t == "=="@ || t == "="@ || t == "Equal"@ {
        Some(PredicateOperator::Equal)
    } else if t == "!="@ || t == "NotEqual"@ {
        Some(PredicateOperator::NotEqual)
    } else if t == "<"@ {
        Some(PredicateOperator::LessThan)
    } else if t == "<="@ {
        Some(PredicateOperator::LessThanOrEqual)
    } else if t == ">"@ {
        Some(PredicateOperator::GreaterThan)
    } else if t == ">="@ {
        Some(PredicateOperator::GreaterThanOrEqual)
    } else if t == "CONTAINS"@ || t == "Contains"@ || t == "contains"@ {
        Some(PredicateOperator::Contains)
    } else if t == "BEGINSWITH"@ {
        Some(PredicateOperator::BeginsWith)
    } else if t == "ENDSWITH"@ {
        Some(PredicateOperator::EndsWith)
    } else if t == "IN"@ {
        Some(PredicateOperator::In)
    } else {
        None
    }
}

/// The value a format's tokens give: the tokens after the operator joined by
/// single spaces, then single quotes trimmed off both ends, then double quotes.
pub open spec fn format_value(toks: Seq<Seq<char>>) -> Seq<char> {
    strip(strip(join_space(toks.skip(2)), false, '\''), false, '"')
}

/// Whether token `t` is the literal `lit`.
fn token_is(t: &Vec<char>, lit: &str) -> (b: bool)
    ensures
        b == (t@ == lit@),
{
    let l = chars_of(lit);
    chars_eq(t.as_slice(), l.as_slice())
}

/// The operator a token names, computed.
fn parse_op(t: &Vec<char>) -> (r: Option<PredicateOperator>)
    ensures
        r == op_named(t@),
{
    if token_is(t, "==") || token_is(t, "=") || token_is(t, "Equal") {
        Some(PredicateOperator::Equal)
    } else if token_is(t, "!=") || token_is(t, "NotEqual") {
        Some(PredicateOperator::NotEqual)
    } else if token_is(t, "<") {
        Some(PredicateOperator::LessThan)
    } else if token_is(t, "<=") {
        Some(PredicateOperator::LessThanOrEqual)
    } else if token_is(t, ">") {
        Some(PredicateOperator::GreaterThan)
    } else if token_is(t, ">=") {
        Some(PredicateOperator::GreaterThanOrEqual)
    } else if token_is(t, "CONTAINS") || token_is(t, "Contains") || token_is(t, "contains") {
        Some(PredicateOperator::Contains)
    } else if token_is(t, "BEGINSWITH") {
        Some(PredicateOperator::BeginsWith)
    } else if token_is(t, "ENDSWITH") {
        Some(PredicateOperator::EndsWith)
    } else if token_is(t, "IN") {
        Some(PredicateOperator::In)
    } else {
        None
    }
}

/// The usual token of each operator in a format: `==`, `!=`, `<`, `<=`,
/// `>`, `>=`, `CONTAINS`, `BEGINSWITH`, `ENDSWITH`, `IN`.
pub open spec fn op_symbol(op: PredicateOperator) -> Seq<char> {
    match op {
        PredicateOperator::Equal => "=="@,
        PredicateOperator::NotEqual => "!="@,
        PredicateOperator::LessThan => "<"@,
        PredicateOperator::LessThanOrEqual => "<="@,
        PredicateOperator::GreaterThan => ">"@,
        PredicateOperator::GreaterThanOrEqual => ">="@,
        PredicateOperator::Contains => "CONTAINS"@,
        PredicateOperator::BeginsWith => "BEGINSWITH"@,
        PredicateOperator::EndsWith => "ENDSWITH"@,
        PredicateOperator::In => "IN"@,
    }
}

/// The format's tokens, as the texts they are.
proof fn lemma_op_tokens()
    ensures
        "=="@ =~= seq!['=', '='],
        "="@ =~= seq!['='],
        "Equal"@ =~= seq!['E', 'q', 'u', 'a', 'l'],
        "!="@ =~= seq!['!', '='],
        "NotEqual"@ =~= seq!['N', 'o', 't', 'E', 'q', 'u', 'a', 'l'],
        "<"@ =~= seq!['<'],
        "<="@ =~= seq!['<', '='],
        ">"@ =~= seq!['>'],
        ">="@ =~= seq!['>', '='],
        "CONTAINS"@ =~= seq!['C', 'O', 'N', 'T', 'A', 'I', 'N', 'S'],
        "Contains"@ =~= seq!['C', 'o', 'n', 't', 'a', 'i', 'n', 's'],
        "contains"@ =~= seq!['c', 'o', 'n', 't', 'a', 'i', 'n', 's'],
        "BEGINSWITH"@ =~= seq!['B', 'E', 'G', 'I', 'N', 'S', 'W', 'I', 'T', 'H'],
        "ENDSWITH"@ =~= seq!['E', 'N', 'D', 'S', 'W', 'I', 'T', 'H'],
        "IN"@ =~= seq!['I', 'N'],
{
    reveal_strlit("==");
    reveal_strlit("=");
    reveal_strlit("Equal");
    reveal_strlit("!=");
    reveal_strlit("NotEqual");
    reveal_strlit("<");
    reveal_strlit("<=");
    reveal_strlit(">");
    reveal_strlit(">=");
    reveal_strlit("CONTAINS");
    reveal_strlit("Contains");
    reveal_strlit("contains");
    reveal_strlit("BEGINSWITH");
    reveal_strlit("ENDSWITH");
    reveal_strlit("IN");
}

/// Every operator is read back from its usual token: `<=` names
/// `LessThanOrEqual`, `>` names `GreaterThan`, and so on.
pub proof fn law_op_symbol_read_back(op: PredicateOperator)
    ensures
        op_named(op_symbol(op)) == Some(op),
{
    lemma_op_tokens();
    // Each token differs from those tried before it in length or in its
    // first character.
    let t = op_symbol(op);
    assert(t.len() > 0);
    assert(t.len() == 1 ==> t[0] == '=' || t[0] == '<' || t[0] == '>');
    assert(t != "=="@ ==> t.len() != 2 || t[0] != '=');
}

/// Distinct operators have distinct tokens (`<` and `<=` among them), so
/// no token can stand for two operators.
pub proof fn law_op_symbols_distinct(a: PredicateOperator, b: PredicateOperator)
    ensures
        a != b ==> op_symbol(a) != op_symbol(b),
{
    law_op_symbol_read_back(a);
    law_op_symbol_read_back(b);
}

/// The other tokens a format may use: `=` and `Equal` for `==`, `NotEqual`
/// for `!=`, `Contains` and `contains` for `CONTAINS`.
pub proof fn law_op_aliases()
    ensures
        op_named("="@) == Some(PredicateOperator::Equal),
        op_named("Equal"@) == Some(PredicateOperator::Equal),
        op_named("NotEqual"@) == Some(PredicateOperator::NotEqual),
        op_named("Contains"@) == Some(PredicateOperator::Contains),
        op_named("contains"@) == Some(PredicateOperator::Contains),
{
    lemma_op_tokens();
}

/// Lowercase a text when case-insensitive.
fn normalize(ci: bool, s: &str) -> (r: String)
    ensures
        r@ == normalized(ci, s@),
{
    if ci {
        lowercase(s)
    } else {
        s.to_string()
    }
}

impl Predicate {
    /// A case-sensitive predicate `key OP value`.
    pub fn new(key: &str, op: PredicateOperator, value: &str) -> (r: Predicate)
        ensures
            r@ == (PredicateView { key: key@, op, value: value@, case_insensitive: false }),
    {
        Predicate { key: key.to_string(), op, value: value.to_string(), case_insensitive: false }
    }

    /// The same predicate, case-insensitive or not.
    pub fn case_insensitive(self, v: bool) -> (r: Predicate)
        ensures
            r@ == (PredicateView { case_insensitive: v, ..self@ }),
    {
        let mut s = self;
        s.case_insensitive = v;
        s
    }

    /// Read a predicate from a format such as `age > 30` or
    /// `name == 'Alice'`: the first white-space separated token is the key,
    /// the second the operator, the rest (joined by single spaces, quotes
    /// trimmed) the value.
    pub fn from_format(format: &str) -> (r: Result<Predicate, CoreDataError>)
        ensures
            ({
                let toks = words(format@);
                if toks.len() < 3 {
                    r matches Err(CoreDataError::Custom(m)) && m@ == "invalid predicate format: "@
                        + format@
                } else {
                    match op_named(toks[1]) {
                        None => r matches Err(CoreDataError::Custom(m)) && m@ == "unknown operator "@
                            + toks[1],
                        Some(op) => r matches Ok(p) && p@ == (PredicateView {
                            key: toks[0],
                            op,
                            value: format_value(toks),
                            case_insensitive: false,
                        }),
                    }
                }
            }),
    {
        let cs = chars_of(format);
        let tokens = split_white(cs.as_slice());
        proof {
            assert(texts_of(tokens@) == words(format@));
        }
        if tokens.len() < 3 {
            let m = concat("invalid predicate format: ", format);
            return Err(CoreDataError::Custom(m));
        }
        assert(tokens@[0]@ == words(format@)[0]);
        assert(tokens@[1]@ == words(format@)[1]);
        let key = string_of(tokens[0].as_slice());
        let joined = join_from(&tokens, 2);
        let once = strip_chars(joined.as_slice(), false, '\'');
        let twice = strip_chars(once.as_slice(), false, '"');
        let value = string_of(twice.as_slice());
        match parse_op(&tokens[1]) {
            Some(op) => Ok(Predicate { key, op, value, case_insensitive: false }),
            None => {
                let name = string_of(tokens[1].as_slice());
                let m = concat("unknown operator ", name.as_str());
                Err(CoreDataError::Custom(m))
            },
        }
    }

    /// The two texts that `evaluate` compares: the attribute's text and the
    /// predicate's value, both lowercased when case-insensitive.
    pub fn operands(&self, attribute_text: &str) -> (r: (String, String))
        ensures
            r.0@ == normalized(self.case_insensitive, attribute_text@),
            r.1@ == normalized(self.case_insensitive, self.value@),
    {
        let l = normalize(self.case_insensitive, attribute_text);
        let r = normalize(self.case_insensitive, self.value.as_str());
        (l, r)
    }

    /// Whether `l OP r` holds, `lk` and `rk` being the numeric readings of
    /// `l` and `r`.
    pub fn holds(&self, l: &str, r: &str, lk: Option<NumKey>, rk: Option<NumKey>) -> (b: bool)
        ensures
            b == op_holds(self.op, l@, r@, lk, rk),
    {
        let lc = chars_of(l);
        let rc = chars_of(r);
        let numeric = lk.is_some() && rk.is_some();
        match self.op {
            PredicateOperator::Equal => chars_eq(lc.as_slice(), rc.as_slice()),
            PredicateOperator::NotEqual => !chars_eq(lc.as_slice(), rc.as_slice()),
            PredicateOperator::LessThan => {
                if numeric {
                    num_lt(lk.unwrap(), rk.unwrap())
                } else {
                    compare_text(lc.as_slice(), rc.as_slice()) == Order::Less
                }
            },
            PredicateOperator::LessThanOrEqual => {
                if numeric {
                    num_le(lk.unwrap(), rk.unwrap())
                } else {
                    compare_text(lc.as_slice(), rc.as_slice()) != Order::Greater
                }
            },
            PredicateOperator::GreaterThan => {
                if numeric {
                    num_lt(rk.unwrap(), lk.unwrap())
                } else {
                    compare_text(lc.as_slice(), rc.as_slice()) == Order::Greater
                }
            },
            PredicateOperator::GreaterThanOrEqual => {
                if numeric {
                    num_le(rk.unwrap(), lk.unwrap())
                } else {
                    compare_text(lc.as_slice(), rc.as_slice()) != Order::Less
                }
            },
            PredicateOperator::Contains => contains_chars(lc.as_slice(), rc.as_slice()),
            PredicateOperator::BeginsWith => starts_with_chars(lc.as_slice(), rc.as_slice()),
            PredicateOperator::EndsWith => ends_with_chars(lc.as_slice(), rc.as_slice()),
            PredicateOperator::In => in_list_contains(rc.as_slice(), lc.as_slice()),
        }
    }
}

/// Whether `k` is what reading the text `s` as a number may give: some call
/// of `read_number` on a text `s` returned `k`.
pub open spec fn reads_as<F: Fn(&str) -> Option<NumKey>>(
    read_number: F,
    s: Seq<char>,
    k: Option<NumKey>,
) -> bool {
    exists|a: &str| a@ == s && #[trigger] call_ensures(read_number, (a,), k)
}

/// Whether `t` is a text that `show` may give for a value `v`.
pub open spec fn shows_as<G: Fn(&Value) -> String>(show: G, v: Val, t: Seq<char>) -> bool {
    exists|x: &Value, s: String| x.view() == v && s@ == t && #[trigger] call_ensures(show, (x,), s)
}

/// Whether the predicate holds of an attribute whose text is `t`, the
/// numeric readings of the two compared texts being `lk` and `rk`.
pub open spec fn holds_of_text(p: PredicateView, t: Seq<char>, lk: Option<NumKey>, rk: Option<NumKey>) -> bool {
    op_holds(p.op, normalized(p.case_insensitive, t), normalized(p.case_insensitive, p.value), lk, rk)
}

/// Whether `b` is what evaluating `p` on `o` may give: false when the
/// attribute is missing; else the predicate on the attribute's text (the
/// scalar's own text, or what `show` gives for a table or an array), the
/// compared texts read as numbers by `read_number`.
pub open spec fn evaluation<F: Fn(&str) -> Option<NumKey>, G: Fn(&Value) -> String>(
    p: PredicateView,
    o: ObjectView,
    show: G,
    read_number: F,
    b: bool,
) -> bool {
    match lookup(o.values, p.key) {
        None => !b,
        Some(v) => exists|t: Seq<char>, lk: Option<NumKey>, rk: Option<NumKey>|
            {
                &&& match scalar_text_of(v) {
                    Some(st) => t == st,
                    None => shows_as(show, v, t),
                }
                &&& reads_as(read_number, normalized(p.case_insensitive, t), lk)
                &&& reads_as(read_number, normalized(p.case_insensitive, p.value), rk)
                &&& b == #[trigger] holds_of_text(p, t, lk, rk)
            },
    }
}

/// On the same attribute text, `!=` holds exactly where `==` does not,
/// whatever the numeric readings (neither looks at them).
pub proof fn law_not_equal_negates(p: PredicateView, t: Seq<char>, lk: Option<NumKey>, rk: Option<NumKey>)
    ensures
        holds_of_text(PredicateView { op: PredicateOperator::NotEqual, ..p }, t, lk, rk) == !holds_of_text(
            PredicateView { op: PredicateOperator::Equal, ..p },
            t,
            lk,
            rk,
        ),
{
}

/// Where both texts read as numbers (neither NaN), the four ordering
/// operators compare those numbers, whatever the texts: `>` holds exactly
/// when the left number is greater than the right, `>=` when it is greater
/// or equal, `<` when it is less, `<=` when it is less or equal.
pub proof fn law_ordering_compares_numbers(l: Seq<char>, r: Seq<char>, x: u64, y: u64)
    ensures
        op_holds(
            PredicateOperator::GreaterThan,
            l,
            r,
            Some(NumKey::Number(x)),
            Some(NumKey::Number(y)),
        ) == (x > y),
        op_holds(
            PredicateOperator::GreaterThanOrEqual,
            l,
            r,
            Some(NumKey::Number(x)),
            Some(NumKey::Number(y)),
        ) == (x >= y),
        op_holds(
            PredicateOperator::LessThan,
            l,
            r,
            Some(NumKey::Number(x)),
            Some(NumKey::Number(y)),
        ) == (x < y),
        op_holds(
            PredicateOperator::LessThanOrEqual,
            l,
            r,
            Some(NumKey::Number(x)),
            Some(NumKey::Number(y)),
        ) == (x <= y),
{
}

/// Where either text does not read as a number, the ordering operators
/// compare the texts character by character: `<` holds exactly when `l`
/// comes first, `>` when it comes after, and `<=` / `>=` when it comes
/// first / after or the texts are equal.
pub proof fn law_ordering_compares_texts(l: Seq<char>, r: Seq<char>, lk: Option<NumKey>, rk: Option<NumKey>)
    requires
        lk is None || rk is None,
    ensures
        op_holds(PredicateOperator::LessThan, l, r, lk, rk) == (text_order(l, r) == Order::Less),
        op_holds(PredicateOperator::GreaterThan, l, r, lk, rk) == (text_order(l, r) == Order::Greater),
        op_holds(PredicateOperator::LessThanOrEqual, l, r, lk, rk) == (text_order(l, r) == Order::Less
            || l == r),
        op_holds(PredicateOperator::GreaterThanOrEqual, l, r, lk, rk) == (text_order(l, r)
            == Order::Greater || l == r),
{
    crate::text::lemma_text_order_equal(l, r);
}

/// Where both texts read as numbers and either is NaN, no ordering
/// operator holds (as no comparison with NaN does).
pub proof fn law_ordering_not_a_number(l: Seq<char>, r: Seq<char>, lk: NumKey, rk: NumKey)
    requires
        lk is NotANumber || rk is NotANumber,
    ensures
        !op_holds(PredicateOperator::GreaterThan, l, r, Some(lk), Some(rk)),
        !op_holds(PredicateOperator::GreaterThanOrEqual, l, r, Some(lk), Some(rk)),
        !op_holds(PredicateOperator::LessThan, l, r, Some(lk), Some(rk)),
        !op_holds(PredicateOperator::LessThanOrEqual, l, r, Some(lk), Some(rk)),
{
}

/// `>` and `<` are strict: neither holds between a text and itself,
/// whatever it reads as; `>=` and `<=` do hold there, unless it reads as NaN.
pub proof fn law_strict_orderings_irreflexive(t: Seq<char>, k: Option<NumKey>)
    ensures
        !op_holds(PredicateOperator::GreaterThan, t, t, k, k),
        !op_holds(PredicateOperator::LessThan, t, t, k, k),
        k != Some(NumKey::NotANumber) ==> op_holds(PredicateOperator::GreaterThanOrEqual, t, t, k, k),
        k != Some(NumKey::NotANumber) ==> op_holds(PredicateOperator::LessThanOrEqual, t, t, k, k),
{
    crate::text::lemma_text_order_equal(t, t);
}

/// `l > r` holds exactly when `r < l` does, and `l >= r` exactly when
/// `r <= l` does, numbers or texts.
pub proof fn law_ordering_converse(l: Seq<char>, r: Seq<char>, lk: Option<NumKey>, rk: Option<NumKey>)
    ensures
        op_holds(PredicateOperator::GreaterThan, l, r, lk, rk) == op_holds(
            PredicateOperator::LessThan,
            r,
            l,
            rk,
            lk,
        ),
        op_holds(PredicateOperator::GreaterThanOrEqual, l, r, lk, rk) == op_holds(
            PredicateOperator::LessThanOrEqual,
            r,
            l,
            rk,
            lk,
        ),
{
    crate::text::lemma_text_order_flip(l, r);
}

/// An attribute whose text is the predicate's own value, read the same way
/// on both sides, never satisfies `>` or `<`: `age > 30` does not hold of
/// an age of `30`.
pub proof fn law_value_not_strictly_beyond_itself(p: PredicateView, k: Option<NumKey>)
    ensures
        !holds_of_text(PredicateView { op: PredicateOperator::GreaterThan, ..p }, p.value, k, k),
        !holds_of_text(PredicateView { op: PredicateOperator::LessThan, ..p }, p.value, k, k),
{
    law_strict_orderings_irreflexive(normalized(p.case_insensitive, p.value), k);
}

impl Predicate {
    /// Evaluate the predicate on `obj`: a missing attribute gives false;
    /// else the attribute's text (a scalar's own, or `show`'s for a table or
    /// an array) is compared with the value, both lowercased when
    /// case-insensitive, numerically where `read_number` reads both as
    /// numbers (see `op_holds`).
    pub fn evaluate<F, G>(&self, obj: &ManagedObject, show: G, read_number: F) -> (b: bool) where
        F: Fn(&str) -> Option<NumKey> + Copy,
        G: Fn(&Value) -> String + Copy,

        requires
            forall|a: &str| #[trigger] call_requires(read_number, (a,)),
            forall|x: &Value| #[trigger] call_requires(show, (x,)),
        ensures
            evaluation(self@, obj@, show, read_number, b),
    {
        let v = match obj.get(self.key.as_str()) {
            None => {
                return false;
            },
            Some(v) => v,
        };
        let text = match v.scalar_text() {
            Some(t) => t,
            None => {
                let t = show(v);
                assert(shows_as(show, v.view(), t@));
                t
            },
        };
        let (l, r) = self.operands(text.as_str());
        let ls = l.as_str();
        let rs = r.as_str();
        let lk = read_number(ls);
        let rk = read_number(rs);
        assert(reads_as(read_number, normalized(self.case_insensitive, text@), lk));
        assert(reads_as(read_number, normalized(self.case_insensitive, self.value@), rk));
        let b = self.holds(ls, rs, lk, rk);
        assert(b == holds_of_text(self@, text@, lk, rk));
        b
    }
}

fn num_lt(a: NumKey, b: NumKey) -> (r: bool)
    ensures
        r == num_less(a, b),
{
    match (a, b) {
        (NumKey::Number(x), NumKey::Number(y)) => x < y,
        _ => false,
    }
}

fn num_le(a: NumKey, b: NumKey) -> (r: bool)
    ensures
        r == num_at_most(a, b),
{
    match (a, b) {
        (NumKey::Number(x), NumKey::Number(y)) => x <= y,
        _ => false,
    }
}

/// Whether `l` is one of the comma-separated, trimmed pieces of `r`.
fn in_list_contains(r: &[char], l: &[char]) -> (b: bool)
    ensures
        b == in_list(r@).contains(l@),
{
    let parts = split_on(r, ',');
    let ghost list = in_list(r@);
    assert(texts_of(parts@) == pieces(r@, ','));
    let mut i: usize = 0;
    while i < parts.len()
        invariant
            texts_of(parts@) == pieces(r@, ','),
            list == in_list(r@),
            list.len() == parts@.len(),
            i <= parts@.len(),
            forall|j: int| 0 <= j < i ==> list[j] != l@,
        decreases parts@.len() - i,
    {
        let t = strip_chars(parts[i].as_slice(), true, ' ');
        assert(list[i as int] == trim_white(parts@[i as int]@));
        if chars_eq(t.as_slice(), l) {
            assert(list[i as int] == l@);
            return true;
        }
        i = i + 1;
    }
    assert(!list.contains(l@));
    false
}

/// How to order fetched objects by one attribute.
#[derive(Debug)]
pub struct SortDescriptor {
    pub key: String,
    pub ascending: bool,
    pub case_insensitive: bool,
}

/// What a sort descriptor is, as mathematics.
pub struct SortDescriptorView {
    pub key: Seq<char>,
    pub ascending: bool,
    pub case_insensitive: bool,
}

impl View for SortDescriptor {
    type V = SortDescriptorView;

    open spec fn view(&self) -> SortDescriptorView {
        SortDescriptorView {
            key: self.key@,
            ascending: self.ascending,
            case_insensitive: self.case_insensitive,
        }
    }
}

impl Clone for SortDescriptor {
    fn clone(&self) -> (r: SortDescriptor)
        ensures
            r@ == self@,
    {
        SortDescriptor {
            key: self.key.clone(),
            ascending: self.ascending,
            case_insensitive: self.case_insensitive,
        }
    }
}

/// The text an attribute sorts by: empty when missing or null, the
/// `Display` text of a scalar; `None` for a table or array, whose text comes
/// from the document format.
pub open spec fn sort_text_of(v: Option<Val>) -> Option<Seq<char>> {
    match v {
        None => Some(Seq::empty()),
        Some(Val::Null) => Some(Seq::empty()),
        Some(x) => scalar_text_of(x),
    }
}

impl SortDescriptor {
    /// Sort by `key`, ascending or not, case-sensitive.
    pub fn new(key: &str, ascending: bool) -> (r: SortDescriptor)
        ensures
            r@ == (SortDescriptorView { key: key@, ascending, case_insensitive: false }),
    {
        SortDescriptor { key: key.to_string(), ascending, case_insensitive: false }
    }

    /// The same descriptor, case-insensitive or not.
    pub fn case_insensitive(self, v: bool) -> (r: SortDescriptor)
        ensures
            r@ == (SortDescriptorView { case_insensitive: v, ..self@ }),
    {
        let mut s = self;
        s.case_insensitive = v;
        s
    }

    /// A text as this descriptor compares it: lowercased when case-insensitive.
    pub fn normalize(&self, raw: &str) -> (r: String)
        ensures
            r@ == normalized(self.case_insensitive, raw@),
    {
        normalize(self.case_insensitive, raw)
    }

    /// The text `obj` sorts by under this descriptor; `None` when the
    /// attribute is a table or an array (see `sort_text_of`).
    pub fn key_text(&self, obj: &ManagedObject) -> (r: Option<String>)
        ensures
            match sort_text_of(lookup(obj@.values, self.key@)) {
                Some(t) => r matches Some(s) && s@ == normalized(self.case_insensitive, t),
                None => r is None,
            },
    {
        let raw = match obj.get(self.key.as_str()) {
            None => String::new(),
            Some(Value::Null) => String::new(),
            Some(v) => match v.scalar_text() {
                Some(t) => t,
                None => {
                    return None;
                },
            },
        };
        Some(normalize(self.case_insensitive, raw.as_str()))
    }
}

/// One sort key of an object: its text and, when the text is a number, its
/// numeric reading.
#[derive(Debug)]
pub struct SortKey {
    pub text: String,
    pub number: Option<NumKey>,
}

/// What a sort key is, as mathematics.
pub struct SortKeyView {
    pub text: Seq<char>,
    pub number: Option<NumKey>,
}

impl View for SortKey {
    type V = SortKeyView;

    open spec fn view(&self) -> SortKeyView {
        SortKeyView { text: self.text@, number: self.number }
    }
}

/// How two objects compare under one descriptor: by number when both texts
/// are numbers (NaN being equal to everything), else by text.
pub open spec fn key_order(a: SortKeyView, b: SortKeyView) -> Order {
    if a.number is Some && b.number is Some {
        match (a.number->0, b.number->0) {
            (NumKey::Number(x), NumKey::Number(y)) => if x < y {
                Order::Less
            } else if x > y {
                Order::Greater
            } else {
                Order::Equal
            },
            _ => Order::Equal,
        }
    } else {
        text_order(a.text, b.text)
    }
}

/// The opposite order.
pub open spec fn flip(o: Order) -> Order {
    match o {
        Order::Less => Order::Greater,
        Order::Greater => Order::Less,
        Order::Equal => Order::Equal,
    }
}

/// How two rows of sort keys compare (`ascending[d]` for the `d`-th
/// descriptor): the first descriptor under which they differ decides.
pub open spec fn row_order(ascending: Seq<bool>, a: Seq<SortKeyView>, b: Seq<SortKeyView>) -> Order
    decreases ascending.len(),
{
    if ascending.len() == 0 {
        Order::Equal
    } else {
        let o = key_order(a[0], b[0]);
        if o != Order::Equal {
            if ascending[0] {
                o
            } else {
                flip(o)
            }
        } else {
            row_order(ascending.drop_first(), a.drop_first(), b.drop_first())
        }
    }
}

/// Compare two sort keys as `key_order` says.
fn compare_keys(a: &SortKey, b: &SortKey) -> (r: Order)
    ensures
        r == key_order(a@, b@),
{
    match (a.number, b.number) {
        (Some(x), Some(y)) => match (x, y) {
            (NumKey::Number(p), NumKey::Number(q)) => {
                if p < q {
                    Order::Less
                } else if p > q {
                    Order::Greater
                } else {
                    Order::Equal
                }
            },
            _ => Order::Equal,
        },
        _ => {
            let ta = chars_of(a.text.as_str());
            let tb = chars_of(b.text.as_str());
            compare_text(ta.as_slice(), tb.as_slice())
        },
    }
}

/// The ascending flags of a list of descriptors.
pub open spec fn ascending_of(ds: Seq<SortDescriptor>) -> Seq<bool> {
    Seq::new(ds.len(), |i: int| ds[i].ascending)
}

/// The sort keys of a row, as mathematics.
pub open spec fn row_view(row: Seq<SortKey>) -> Seq<SortKeyView> {
    Seq::new(row.len(), |d: int| row[d]@)
}

/// The rows of sort keys, as mathematics.
pub open spec fn rows_view(rows: Seq<Vec<SortKey>>) -> Seq<Seq<SortKeyView>> {
    Seq::new(rows.len(), |i: int| row_view(rows[i]@))
}

/// Compare two rows of sort keys as `row_order` says.
fn compare_rows(ds: &Vec<SortDescriptor>, a: &Vec<SortKey>, b: &Vec<SortKey>) -> (r: Order)
    requires
        a@.len() == ds@.len(),
        b@.len() == ds@.len(),
    ensures
        r == row_order(ascending_of(ds@), row_view(a@), row_view(b@)),
{
    let ghost asc = ascending_of(ds@);
    let ghost ra = row_view(a@);
    let ghost rb = row_view(b@);
    let mut d: usize = 0;
    assert(asc.skip(0) =~= asc);
    assert(ra.skip(0) =~= ra);
    assert(rb.skip(0) =~= rb);
    while d < ds.len()
        invariant
            a@.len() == ds@.len(),
            b@.len() == ds@.len(),
            asc == ascending_of(ds@),
            ra == row_view(a@),
            rb == row_view(b@),
            d <= ds@.len(),
            row_order(asc, ra, rb) == row_order(asc.skip(d as int), ra.skip(d as int), rb.skip(
                d as int,
            )),
        decreases ds@.len() - d,
    {
        let o = compare_keys(&a[d], &b[d]);
        assert(ra.skip(d as int)[0] == a@[d as int]@);
        assert(rb.skip(d as int)[0] == b@[d as int]@);
        assert(asc.skip(d as int)[0] == ds@[d as int].ascending);
        if o != Order::Equal {
            if ds[d].ascending {
                return o;
            } else {
                return match o {
                    Order::Less => Order::Greater,
                    Order::Greater => Order::Less,
                    Order::Equal => Order::Equal,
                };
            }
        }
        assert(asc.skip(d as int).drop_first() =~= asc.skip(d + 1));
        assert(ra.skip(d as int).drop_first() =~= ra.skip(d + 1));
        assert(rb.skip(d as int).drop_first() =~= rb.skip(d + 1));
        d = d + 1;
    }
    Order::Equal
}

/// `perm` lists each position that `keep` keeps, once, and no other.
pub open spec fn arrangement_of(perm: Seq<int>, keep: Seq<bool>) -> bool {
    &&& perm.no_duplicates()
    &&& forall|i: int| 0 <= i < perm.len() ==> 0 <= #[trigger] perm[i] < keep.len() && keep[perm[i]]
    &&& forall|j: int| 0 <= j < keep.len() && #[trigger] keep[j] ==> perm.contains(j)
}

/// The order on the kept rows is a total preorder: each pair compares the
/// same way read in both directions, and "not after" is transitive.
pub open spec fn total_preorder(asc: Seq<bool>, rows: Seq<Seq<SortKeyView>>, keep: Seq<bool>) -> bool {
    &&& forall|a: int, b: int|
        0 <= a < keep.len() && 0 <= b < keep.len() && keep[a] && keep[b] ==> #[trigger] row_order(
            asc,
            rows[a],
            rows[b],
        ) == flip(row_order(asc, rows[b], rows[a]))
    &&& forall|a: int, b: int, c: int|
        0 <= a < keep.len() && 0 <= b < keep.len() && 0 <= c < keep.len() && keep[a] && keep[b]
            && keep[c] && #[trigger] row_order(asc, rows[a], rows[b]) != Order::Greater
            && #[trigger] row_order(asc, rows[b], rows[c]) != Order::Greater ==> row_order(
            asc,
            rows[a],
            rows[c],
        ) != Order::Greater
}

/// `perm` is sorted, and rows that compare equal keep their relative order.
pub open spec fn stably_sorted(perm: Seq<int>, asc: Seq<bool>, rows: Seq<Seq<SortKeyView>>) -> bool {
    forall|i: int, j: int|
        0 <= i < j < perm.len() ==> {
            let o = #[trigger] row_order(asc, rows[perm[i]], rows[perm[j]]);
            o != Order::Greater && (o == Order::Equal ==> perm[i] < perm[j])
        }
}

/// Where a page of `len` results starts: at `offset`, or at the end.
pub open spec fn page_start(len: int, offset: int) -> int {
    if offset < len {
        offset
    } else {
        len
    }
}

/// How many results a page of `len` results holds.
pub open spec fn page_len(len: int, offset: int, limit: Option<usize>) -> int {
    let rest = len - page_start(len, offset);
    match limit {
        Some(l) => if l < rest {
            l as int
        } else {
            rest
        },
        None => rest,
    }
}

/// The positions as integers.
pub open spec fn as_ints(v: Seq<usize>) -> Seq<int> {
    Seq::new(v.len(), |i: int| v[i] as int)
}

/// What a fetch request is, as mathematics.
pub struct FetchRequestView {
    pub entity: Seq<char>,
    pub predicate: Option<PredicateView>,
    pub predicates: Seq<PredicateView>,
    pub sort_descriptors: Seq<SortDescriptorView>,
    pub fetch_limit: Option<usize>,
    pub fetch_offset: usize,
    pub include_deleted: bool,
}

/// What to fetch: the objects of an entity that the predicates all hold of
/// (the single `predicate` and each of `predicates`), sorted by the
/// descriptors, then paged by offset and limit.
#[derive(Debug)]
pub struct FetchRequest {
    pub entity: String,
    pub predicate: Option<Predicate>,
    pub predicates: Vec<Predicate>,
    pub sort_descriptors: Vec<SortDescriptor>,
    pub fetch_limit: Option<usize>,
    pub fetch_offset: usize,
    pub include_deleted: bool,
}

impl View for FetchRequest {
    type V = FetchRequestView;

    open spec fn view(&self) -> FetchRequestView {
        FetchRequestView {
            entity: self.entity@,
            predicate: match self.predicate {
                Some(p) => Some(p@),
                None => None,
            },
            predicates: Seq::new(self.predicates@.len(), |i: int| self.predicates@[i]@),
            sort_descriptors: Seq::new(
                self.sort_descriptors@.len(),
                |i: int| self.sort_descriptors@[i]@,
            ),
            fetch_limit: self.fetch_limit,
            fetch_offset: self.fetch_offset,
            include_deleted: self.include_deleted,
        }
    }
}

/// All the predicates of a request, the single one first.
pub open spec fn all_predicates_of(r: FetchRequestView) -> Seq<PredicateView> {
    match r.predicate {
        Some(p) => seq![p] + r.predicates,
        None => r.predicates,
    }
}

/// Whether an object is of the request's entity and, unless deleted objects
/// are asked for, not deleted.
pub open spec fn in_scope_of(r: FetchRequestView, o: ObjectView) -> bool {
    o.entity == r.entity && (r.include_deleted || !o.deleted)
}

impl FetchRequest {
    /// Everything of `entity`: no predicate, no sorting, no limit, no
    /// offset, deleted objects left out.
    pub fn new(entity: &str) -> (r: FetchRequest)
        ensures
            r@ == (FetchRequestView {
                entity: entity@,
                predicate: None,
                predicates: Seq::empty(),
                sort_descriptors: Seq::empty(),
                fetch_limit: None,
                fetch_offset: 0,
                include_deleted: false,
            }),
    {
        let r = FetchRequest {
            entity: entity.to_string(),
            predicate: None,
            predicates: Vec::new(),
            sort_descriptors: Vec::new(),
            fetch_limit: None,
            fetch_offset: 0,
            include_deleted: false,
        };
        assert(r@.predicates =~= Seq::<PredicateView>::empty());
        assert(r@.sort_descriptors =~= Seq::<SortDescriptorView>::empty());
        r
    }

    /// The same request with `p` as its single predicate.
    pub fn predicate(self, p: Predicate) -> (r: FetchRequest)
        ensures
            r@ == (FetchRequestView { predicate: Some(p@), ..self@ }),
    {
        let mut s = self;
        s.predicate = Some(p);
        assert(s@.predicates =~= self@.predicates);
        assert(s@.sort_descriptors =~= self@.sort_descriptors);
        s
    }

    /// The same request with `p` added to the predicates that must all hold.
    pub fn and_predicate(self, p: Predicate) -> (r: FetchRequest)
        ensures
            r@ == (FetchRequestView { predicates: self@.predicates.push(p@), ..self@ }),
    {
        let mut s = self;
        let ghost pv = p@;
        s.predicates.push(p);
        assert(s@.predicates =~= self@.predicates.push(pv));
        assert(s@.sort_descriptors =~= self@.sort_descriptors);
        s
    }

    /// The same request, sorted by `d` after its other descriptors.
    pub fn sorted_by(self, d: SortDescriptor) -> (r: FetchRequest)
        ensures
            r@ == (FetchRequestView { sort_descriptors: self@.sort_descriptors.push(d@), ..self@ }),
    {
        let mut s = self;
        let ghost dv = d@;
        s.sort_descriptors.push(d);
        assert(s@.sort_descriptors =~= self@.sort_descriptors.push(dv));
        assert(s@.predicates =~= self@.predicates);
        s
    }

    /// The same request returning at most `n` objects.
    pub fn limit(self, n: usize) -> (r: FetchRequest)
        ensures
            r@ == (FetchRequestView { fetch_limit: Some(n), ..self@ }),
    {
        let mut s = self;
        s.fetch_limit = Some(n);
        assert(s@.predicates =~= self@.predicates);
        assert(s@.sort_descriptors =~= self@.sort_descriptors);
        s
    }

    /// The same request skipping the first `n` objects.
    pub fn offset(self, n: usize) -> (r: FetchRequest)
        ensures
            r@ == (FetchRequestView { fetch_offset: n, ..self@ }),
    {
        let mut s = self;
        s.fetch_offset = n;
        assert(s@.predicates =~= self@.predicates);
        assert(s@.sort_descriptors =~= self@.sort_descriptors);
        s
    }

    /// The same request, with deleted objects included or not.
    pub fn include_deleted(self, v: bool) -> (r: FetchRequest)
        ensures
            r@ == (FetchRequestView { include_deleted: v, ..self@ }),
    {
        let mut s = self;
        s.include_deleted = v;
        assert(s@.predicates =~= self@.predicates);
        assert(s@.sort_descriptors =~= self@.sort_descriptors);
        s
    }

    /// All the predicates that must hold, the single one first.
    pub fn all_predicates(&self) -> (r: Vec<Predicate>)
        ensures
            Seq::new(r@.len(), |i: int| r@[i]@) == all_predicates_of(self@),
    {
        let mut out: Vec<Predicate> = Vec::new();
        let ghost first: Seq<PredicateView> = match self@.predicate {
            Some(p) => seq![p],
            None => Seq::empty(),
        };
        match &self.predicate {
            Some(p) => out.push(p.clone()),
            None => {},
        }
        assert(Seq::new(out@.len(), |i: int| out@[i]@) =~= first);
        let mut i: usize = 0;
        while i < self.predicates.len()
            invariant
                i <= self.predicates@.len(),
                Seq::new(out@.len(), |j: int| out@[j]@) == first + self@.predicates.take(i as int),
            decreases self.predicates@.len() - i,
        {
            let ghost before = Seq::new(out@.len(), |j: int| out@[j]@);
            out.push(self.predicates[i].clone());
            i = i + 1;
            assert(Seq::new(out@.len(), |j: int| out@[j]@) =~= before.push(
                self@.predicates[i - 1],
            ));
            assert(self@.predicates.take(i as int) =~= self@.predicates.take(i - 1).push(
                self@.predicates[i - 1],
            ));
            assert(first + self@.predicates.take(i as int) =~= (first + self@.predicates.take(
                i - 1,
            )).push(self@.predicates[i - 1]));
        }
        assert(self@.predicates.take(i as int) =~= self@.predicates);
        out
    }

    /// Whether `obj` is of the request's entity and, unless deleted objects
    /// are asked for, not deleted.
    pub fn in_scope(&self, obj: &ManagedObject) -> (r: bool)
        ensures
            r == in_scope_of(self@, obj@),
    {
        let a = chars_of(obj.entity.as_str());
        let b = chars_of(self.entity.as_str());
        if !chars_eq(a.as_slice(), b.as_slice()) {
            return false;
        }
        if !self.include_deleted && obj.deleted {
            return false;
        }
        true
    }

    /// Whether the request selects `obj`: it is in scope and every predicate
    /// holds of it (see `Predicate::evaluate`); evaluation stops at the first
    /// predicate that does not hold.
    pub fn matches<F, G>(&self, obj: &ManagedObject, show: G, read_number: F) -> (r: bool) where
        F: Fn(&str) -> Option<NumKey> + Copy,
        G: Fn(&Value) -> String + Copy,

        requires
            forall|a: &str| #[trigger] call_requires(read_number, (a,)),
            forall|x: &Value| #[trigger] call_requires(show, (x,)),
        ensures
            r ==> in_scope_of(self@, obj@) && forall|i: int|
                0 <= i < all_predicates_of(self@).len() ==> #[trigger] evaluation(
                    all_predicates_of(self@)[i],
                    obj@,
                    show,
                    read_number,
                    true,
                ),
            !r ==> !in_scope_of(self@, obj@) || exists|i: int|
                0 <= i < all_predicates_of(self@).len() && #[trigger] evaluation(
                    all_predicates_of(self@)[i],
                    obj@,
                    show,
                    read_number,
                    false,
                ),
    {
        if !self.in_scope(obj) {
            return false;
        }
        let preds = self.all_predicates();
        let ghost ps = all_predicates_of(self@);
        let mut i: usize = 0;
        while i < preds.len()
            invariant
                Seq::new(preds@.len(), |j: int| preds@[j]@) == ps,
                ps == all_predicates_of(self@),
                in_scope_of(self@, obj@),
                i <= preds@.len(),
                forall|a: &str| #[trigger] call_requires(read_number, (a,)),
                forall|x: &Value| #[trigger] call_requires(show, (x,)),
                forall|j: int| 0 <= j < i ==> #[trigger] evaluation(ps[j], obj@, show, read_number, true),
            decreases preds@.len() - i,
        {
            let b = preds[i].evaluate(obj, show, read_number);
            assert(ps[i as int] == preds@[i as int]@);
            if !b {
                return false;
            }
            i = i + 1;
        }
        true
    }

    /// Whether the request selects `obj`, `verdicts[i]` telling whether the
    /// `i`-th of `all_predicates` holds of it.
    pub fn matches_given(&self, obj: &ManagedObject, verdicts: &[bool]) -> (r: bool)
        requires
            verdicts@.len() == all_predicates_of(self@).len(),
        ensures
            r == (in_scope_of(self@, obj@) && forall|i: int|
                0 <= i < verdicts@.len() ==> #[trigger] verdicts@[i]),
    {
        if !self.in_scope(obj) {
            return false;
        }
        let mut i: usize = 0;
        while i < verdicts.len()
            invariant
                i <= verdicts@.len(),
                forall|j: int| 0 <= j < i ==> #[trigger] verdicts@[j],
            decreases verdicts@.len() - i,
        {
            if !verdicts[i] {
                return false;
            }
            i = i + 1;
        }
        true
    }
}

/// Inserting `x` at `p` (after every row it does not sort before, before
/// the first row it sorts strictly before) keeps a stably sorted list of
/// earlier positions stably sorted.
proof fn lemma_insert_sorted(
    perm: Seq<int>,
    p: int,
    x: int,
    asc: Seq<bool>,
    rows: Seq<Seq<SortKeyView>>,
    keep: Seq<bool>,
)
    requires
        total_preorder(asc, rows, keep),
        stably_sorted(perm, asc, rows),
        0 <= p <= perm.len(),
        0 <= x < keep.len(),
        keep[x],
        forall|i: int| 0 <= i < perm.len() ==> 0 <= #[trigger] perm[i] < x && keep[perm[i]],
        forall|q: int| 0 <= q < p ==> row_order(asc, rows[x], rows[#[trigger] perm[q]]) != Order::Less,
        p < perm.len() ==> row_order(asc, rows[x], rows[perm[p]]) == Order::Less,
    ensures
        stably_sorted(perm.insert(p, x), asc, rows),
{
    let s = perm.insert(p, x);
    assert forall|i: int, j: int| 0 <= i < j < s.len() implies {
        let o = #[trigger] row_order(asc, rows[s[i]], rows[s[j]]);
        o != Order::Greater && (o == Order::Equal ==> s[i] < s[j])
    } by {
        if i == p {
            let c = perm[j - 1];
            assert(s[j] == c);
            assert(s[i] == x);
            if j - 1 > p {
                let b = perm[p];
                assert(row_order(asc, rows[b], rows[c]) != Order::Greater);
                if row_order(asc, rows[x], rows[c]) != Order::Less {
                    assert(row_order(asc, rows[x], rows[c]) == flip(row_order(asc, rows[c], rows[x])));
                    assert(row_order(asc, rows[c], rows[x]) != Order::Greater);
                    assert(row_order(asc, rows[b], rows[x]) != Order::Greater);
                    assert(row_order(asc, rows[x], rows[b]) == flip(row_order(asc, rows[b], rows[x])));
                    assert(false);
                }
            }
        } else if j == p {
            let a = perm[i];
            assert(s[i] == a);
            assert(s[j] == x);
            assert(row_order(asc, rows[x], rows[a]) != Order::Less);
            assert(row_order(asc, rows[a], rows[x]) == flip(row_order(asc, rows[x], rows[a])));
        } else {
            let i1 = if i < p {
                i
            } else {
                i - 1
            };
            let j1 = if j < p {
                j
            } else {
                j - 1
            };
            assert(s[i] == perm[i1]);
            assert(s[j] == perm[j1]);
            assert(i1 < j1);
            assert(row_order(asc, rows[perm[i1]], rows[perm[j1]]) != Order::Greater);
        }
    }
}

/// The positions listed while `x` rows have been seen are kept positions below `x`.
proof fn lemma_elements_below(perm: Seq<int>, x: int, keep: Seq<bool>)
    requires
        0 <= x <= keep.len(),
        arrangement_of(perm, keep.take(x)),
    ensures
        forall|i: int| 0 <= i < perm.len() ==> 0 <= #[trigger] perm[i] < x && keep[perm[i]],
{
    assert forall|i: int| 0 <= i < perm.len() implies 0 <= #[trigger] perm[i] < x && keep[perm[i]] by {
        assert(keep.take(x)[perm[i]] == keep[perm[i]]);
    }
}

/// Inserting the kept position `x` anywhere extends the arrangement by `x`.
proof fn lemma_insert_arrangement(perm: Seq<int>, p: int, x: int, keep: Seq<bool>)
    requires
        0 <= x < keep.len(),
        keep[x],
        0 <= p <= perm.len(),
        arrangement_of(perm, keep.take(x)),
    ensures
        arrangement_of(perm.insert(p, x), keep.take(x + 1)),
{
    let after = perm.insert(p, x);
    let kx = keep.take(x + 1);
    lemma_elements_below(perm, x, keep);
    assert(after.no_duplicates()) by {
        assert forall|i: int, j: int| 0 <= i < after.len() && 0 <= j < after.len() && i != j implies after[i]
            != after[j] by {
            let i1 = if i < p {
                i
            } else {
                i - 1
            };
            let j1 = if j < p {
                j
            } else {
                j - 1
            };
            if i != p {
                assert(after[i] == perm[i1]);
            }
            if j != p {
                assert(after[j] == perm[j1]);
            }
        }
    }
    assert forall|j: int| 0 <= j < kx.len() && #[trigger] kx[j] implies after.contains(j) by {
        if j == x {
            assert(after[p] == x);
        } else {
            assert(keep.take(x)[j] == kx[j]);
            assert(perm.contains(j));
            let w = choose|w: int| 0 <= w < perm.len() && perm[w] == j;
            if w < p {
                assert(after[w] == j);
            } else {
                assert(after[w + 1] == j);
            }
        }
    }
    assert forall|i: int| 0 <= i < after.len() implies 0 <= #[trigger] after[i] < kx.len() && kx[after[i]] by {
        if i != p {
            let i1 = if i < p {
                i
            } else {
                i - 1
            };
            assert(after[i] == perm[i1]);
        }
    }
}

/// Passing over a position that is not kept leaves the arrangement as it is.
proof fn lemma_skip_arrangement(perm: Seq<int>, x: int, keep: Seq<bool>)
    requires
        0 <= x < keep.len(),
        !keep[x],
        arrangement_of(perm, keep.take(x)),
    ensures
        arrangement_of(perm, keep.take(x + 1)),
{
    let kx = keep.take(x + 1);
    assert forall|j: int| 0 <= j < kx.len() && #[trigger] kx[j] implies perm.contains(j) by {
        assert(keep.take(x)[j] == kx[j]);
    }
    assert forall|i: int| 0 <= i < perm.len() implies 0 <= #[trigger] perm[i] < kx.len() && kx[perm[i]] by {
        assert(keep.take(x)[perm[i]] == kx[perm[i]]);
    }
}

/// Where row `x` goes in `order`: before the first row that it sorts
/// strictly before, else at the end.
fn insertion_point(
    ds: &Vec<SortDescriptor>,
    keys: &[Vec<SortKey>],
    order: &Vec<usize>,
    x: usize,
) -> (p: usize)
    requires
        x < keys@.len(),
        forall|i: int| 0 <= i < keys@.len() ==> (#[trigger] keys@[i])@.len() == ds@.len(),
        forall|q: int| 0 <= q < order@.len() ==> #[trigger] order@[q] < keys@.len(),
    ensures
        p <= order@.len(),
        forall|q: int|
            0 <= q < p ==> row_order(
                ascending_of(ds@),
                rows_view(keys@)[x as int],
                rows_view(keys@)[#[trigger] order@[q] as int],
            ) != Order::Less,
        p < order@.len() ==> row_order(
            ascending_of(ds@),
            rows_view(keys@)[x as int],
            rows_view(keys@)[order@[p as int] as int],
        ) == Order::Less,
{
    let ghost asc = ascending_of(ds@);
    let ghost rows = rows_view(keys@);
    let mut p: usize = 0;
    while p < order.len()
        invariant
            x < keys@.len(),
            asc == ascending_of(ds@),
            rows == rows_view(keys@),
            forall|i: int| 0 <= i < keys@.len() ==> (#[trigger] keys@[i])@.len() == ds@.len(),
            forall|q: int| 0 <= q < order@.len() ==> #[trigger] order@[q] < keys@.len(),
            p <= order@.len(),
            forall|q: int|
                0 <= q < p ==> row_order(asc, rows[x as int], rows[#[trigger] order@[q] as int])
                    != Order::Less,
        decreases order@.len() - p,
    {
        let y = order[p];
        assert(keys@[y as int]@.len() == ds@.len());
        let o = compare_rows(ds, &keys[x], &keys[y]);
        assert(rows[x as int] == row_view(keys@[x as int]@));
        assert(rows[y as int] == row_view(keys@[y as int]@));
        if o == Order::Less {
            return p;
        }
        p = p + 1;
    }
    p
}

impl FetchRequest {
    /// The result of the request over `objects`: the objects that `keep`
    /// keeps, in their order, sorted stably by the descriptors (`keys[i]`
    /// holding the sort keys of `objects[i]`, one per descriptor), then from
    /// the offset on, at most the limit many.
    ///
    /// Where the descriptors do not order the kept objects as a total
    /// preorder (which can happen when numbers and texts are mixed, or with
    /// NaN), the result is still each kept object once, in some order.
    pub fn arrange(&self, objects: Vec<ManagedObject>, keep: &[bool], keys: &[Vec<SortKey>]) -> (r:
        Vec<ManagedObject>)
        requires
            keep@.len() == objects@.len(),
            keys@.len() == objects@.len(),
            forall|i: int| 0 <= i < keys@.len() ==> (#[trigger] keys@[i])@.len()
                == self.sort_descriptors@.len(),
        ensures
            exists|perm: Seq<int>|
                {
                    &&& #[trigger] arrangement_of(perm, keep@)
                    &&& total_preorder(
                        ascending_of(self.sort_descriptors@),
                        rows_view(keys@),
                        keep@,
                    ) ==> stably_sorted(
                        perm,
                        ascending_of(self.sort_descriptors@),
                        rows_view(keys@),
                    )
                    &&& r@.len() == page_len(perm.len() as int, self.fetch_offset as int, self.fetch_limit)
                    &&& forall|i: int|
                        0 <= i < r@.len() ==> (#[trigger] r@[i])@ == objects@[perm[page_start(
                            perm.len() as int,
                            self.fetch_offset as int,
                        ) + i]]@
                },
    {
        let ghost asc = ascending_of(self.sort_descriptors@);
        let ghost rows = rows_view(keys@);
        let n = objects.len();
        let mut order: Vec<usize> = Vec::new();
        let mut x: usize = 0;
        assert(keep@.take(0) =~= Seq::<bool>::empty());
        while x < n
            invariant
                n == objects@.len(),
                keep@.len() == n,
                keys@.len() == n,
                asc == ascending_of(self.sort_descriptors@),
                rows == rows_view(keys@),
                forall|i: int| 0 <= i < keys@.len() ==> (#[trigger] keys@[i])@.len()
                    == self.sort_descriptors@.len(),
                x <= n,
                forall|q: int| 0 <= q < order@.len() ==> #[trigger] order@[q] < x,
                arrangement_of(as_ints(order@), keep@.take(x as int)),
                total_preorder(asc, rows, keep@) ==> stably_sorted(as_ints(order@), asc, rows),
            decreases n - x,
        {
            let ghost before = as_ints(order@);
            if keep[x] {
                let p = insertion_point(&self.sort_descriptors, keys, &order, x);
                let ghost order_before = order@;
                order.insert(p, x);
                proof {
                    let after = as_ints(order@);
                    assert(after =~= before.insert(p as int, x as int));
                    lemma_elements_below(before, x as int, keep@);
                    if total_preorder(asc, rows, keep@) {
                        assert forall|q: int| 0 <= q < p implies row_order(
                            asc,
                            rows[x as int],
                            rows[#[trigger] before[q]],
                        ) != Order::Less by {
                            assert(before[q] == order_before[q] as int);
                        }
                        lemma_insert_sorted(before, p as int, x as int, asc, rows, keep@);
                    }
                    lemma_insert_arrangement(before, p as int, x as int, keep@);
                }
            } else {
                proof {
                    lemma_skip_arrangement(before, x as int, keep@);
                }
            }
            x = x + 1;
        }
        assert(keep@.take(n as int) =~= keep@);
        let len = order.len();
        let start = if self.fetch_offset < len {
            self.fetch_offset
        } else {
            len
        };
        let mut end = len;
        match self.fetch_limit {
            Some(l) => {
                if l < len - start {
                    end = start + l;
                }
            },
            None => {},
        }
        let mut out: Vec<ManagedObject> = Vec::new();
        let mut i: usize = start;
        while i < end
            invariant
                start <= i <= end <= len,
                len == order@.len(),
                n == objects@.len(),
                forall|q: int| 0 <= q < order@.len() ==> #[trigger] order@[q] < n,
                out@.len() == i - start,
                forall|k: int|
                    0 <= k < out@.len() ==> (#[trigger] out@[k])@ == objects@[order@[start + k] as int]@,
            decreases end - i,
        {
            let o = objects[order[i]].clone();
            out.push(o);
            i = i + 1;
        }
        let ghost perm = as_ints(order@);
        assert(arrangement_of(perm, keep@));
        assert(out@.len() == page_len(perm.len() as int, self.fetch_offset as int, self.fetch_limit));
        assert(forall|k: int|
            0 <= k < out@.len() ==> (#[trigger] out@[k])@ == objects@[perm[page_start(
                perm.len() as int,
                self.fetch_offset as int,
            ) + k]]@);
        out
    }
}

/// Whether `b` is what asking whether a request selects `o` may give: true
/// only for an object in scope of which every predicate holds; false only
/// for one out of scope or of which some predicate does not hold.
pub open spec fn selection<F: Fn(&str) -> Option<NumKey>, G: Fn(&Value) -> String>(
    r: FetchRequestView,
    o: ObjectView,
    show: G,
    read_number: F,
    b: bool,
) -> bool {
    &&& b ==> in_scope_of(r, o) && forall|i: int|
        0 <= i < all_predicates_of(r).len() ==> #[trigger] evaluation(
            all_predicates_of(r)[i],
            o,
            show,
            read_number,
            true,
        )
    &&& !b ==> !in_scope_of(r, o) || exists|i: int|
        0 <= i < all_predicates_of(r).len() && #[trigger] evaluation(
            all_predicates_of(r)[i],
            o,
            show,
            read_number,
            false,
        )
}

/// Whether `k` is a sort key that descriptor `d` may give `o`: the
/// attribute's text as `sort_text_of` says (for a table or an array, what
/// `show` gives), lowercased when case-insensitive, with its numeric reading.
pub open spec fn sort_key_choice<F: Fn(&str) -> Option<NumKey>, G: Fn(&Value) -> String>(
    d: SortDescriptorView,
    o: ObjectView,
    show: G,
    read_number: F,
    k: SortKeyView,
) -> bool {
    &&& match sort_text_of(lookup(o.values, d.key)) {
        Some(t) => k.text == normalized(d.case_insensitive, t),
        None => exists|t: Seq<char>|
            #[trigger] shows_as(show, lookup(o.values, d.key)->0, t) && k.text == normalized(
                d.case_insensitive,
                t,
            ),
    }
    &&& reads_as(read_number, k.text, k.number)
}

/// Whether `rows` holds, for each object, a sort key per descriptor that
/// the descriptor may give it.
pub open spec fn keys_chosen<F: Fn(&str) -> Option<NumKey>, G: Fn(&Value) -> String>(
    ds: Seq<SortDescriptor>,
    objs: Seq<ManagedObject>,
    show: G,
    read_number: F,
    rows: Seq<Seq<SortKeyView>>,
) -> bool {
    &&& rows.len() == objs.len()
    &&& forall|i: int| 0 <= i < rows.len() ==> (#[trigger] rows[i]).len() == ds.len()
    &&& forall|i: int, d: int|
        0 <= i < rows.len() && 0 <= d < ds.len() ==> sort_key_choice(
            ds[d]@,
            objs[i]@,
            show,
            read_number,
            #[trigger] rows[i][d],
        )
}

impl SortDescriptor {
    /// The sort key `obj` gets under this descriptor (see `sort_key_choice`).
    pub fn sort_key<F, G>(&self, obj: &ManagedObject, show: G, read_number: F) -> (k: SortKey) where
        F: Fn(&str) -> Option<NumKey> + Copy,
        G: Fn(&Value) -> String + Copy,

        requires
            forall|a: &str| #[trigger] call_requires(read_number, (a,)),
            forall|x: &Value| #[trigger] call_requires(show, (x,)),
        ensures
            sort_key_choice(self@, obj@, show, read_number, k@),
    {
        let text = match self.key_text(obj) {
            Some(t) => t,
            None => match obj.get(self.key.as_str()) {
                Some(v) => {
                    let shown = show(v);
                    assert(shows_as(show, v.view(), shown@));
                    let t = self.normalize(shown.as_str());
                    assert(lookup(obj@.values, self@.key) == Some(v.view()));
                    assert(shows_as(show, lookup(obj@.values, self@.key)->0, shown@) && t@
                        == normalized(self.case_insensitive, shown@));
                    assert(sort_text_of(lookup(obj@.values, self@.key)) is None);
                    t
                },
                None => String::new(),
            },
        };
        let ts = text.as_str();
        let number = read_number(ts);
        assert(reads_as(read_number, text@, number));
        SortKey { text, number }
    }
}

impl FetchRequest {
    /// The request applied to `objects`: those it selects (see `matches`),
    /// sorted stably by the descriptors (see `SortDescriptor::sort_key`),
    /// then from the offset on, at most the limit many (see `arrange`).
    pub fn apply<F, G>(&self, objects: Vec<ManagedObject>, show: G, read_number: F) -> (r: Vec<
        ManagedObject,
    >) where
        F: Fn(&str) -> Option<NumKey> + Copy,
        G: Fn(&Value) -> String + Copy,

        requires
            forall|a: &str| #[trigger] call_requires(read_number, (a,)),
            forall|x: &Value| #[trigger] call_requires(show, (x,)),
        ensures
            applied(self.sort_descriptors@, self@, objects@, show, read_number, r@),
    {
        let ghost objs = objects@;
        let ghost ds = self.sort_descriptors@;
        let mut keep: Vec<bool> = Vec::new();
        let mut keys: Vec<Vec<SortKey>> = Vec::new();
        let mut i: usize = 0;
        while i < objects.len()
            invariant
                objs == objects@,
                ds == self.sort_descriptors@,
                i <= objs.len(),
                keep@.len() == i,
                keys@.len() == i,
                forall|a: &str| #[trigger] call_requires(read_number, (a,)),
                forall|x: &Value| #[trigger] call_requires(show, (x,)),
                forall|j: int| 0 <= j < i ==> #[trigger] selection(self@, objs[j]@, show, read_number, keep@[j]),
                forall|j: int| 0 <= j < i ==> (#[trigger] keys@[j])@.len() == ds.len(),
                forall|j: int, d: int|
                    0 <= j < i && 0 <= d < ds.len() ==> sort_key_choice(
                        ds[d]@,
                        objs[j]@,
                        show,
                        read_number,
                        #[trigger] keys@[j]@[d]@,
                    ),
            decreases objs.len() - i,
        {
            let b = self.matches(&objects[i], show, read_number);
            keep.push(b);
            let mut row: Vec<SortKey> = Vec::new();
            let mut d: usize = 0;
            while d < self.sort_descriptors.len()
                invariant
                    objs == objects@,
                    ds == self.sort_descriptors@,
                    i < objs.len(),
                    row@.len() == d,
                    d <= ds.len(),
                    forall|a: &str| #[trigger] call_requires(read_number, (a,)),
                    forall|x: &Value| #[trigger] call_requires(show, (x,)),
                    forall|e: int| 0 <= e < d ==> sort_key_choice(
                        ds[e]@,
                        objs[i as int]@,
                        show,
                        read_number,
                        #[trigger] row@[e]@,
                    ),
                decreases ds.len() - d,
            {
                let k = self.sort_descriptors[d].sort_key(&objects[i], show, read_number);
                row.push(k);
                d = d + 1;
            }
            keys.push(row);
            i = i + 1;
        }
        let ghost rows = rows_view(keys@);
        assert(keys_chosen(ds, objs, show, read_number, rows)) by {
            assert forall|j: int, d: int|
                0 <= j < rows.len() && 0 <= d < ds.len() implies sort_key_choice(
                ds[d]@,
                objs[j]@,
                show,
                read_number,
                #[trigger] rows[j][d],
            ) by {
                assert(rows[j][d] == keys@[j]@[d]@);
            }
        }
        let ks = keep.as_slice();
        let rs = keys.as_slice();
        assert(ks@ == keep@);
        assert(rs@ == keys@);
        let r = self.arrange(objects, ks, rs);
        r
    }
}

/// Two stable sorts of the same kept rows agree on every position both reach.
proof fn lemma_stable_agree(
    perm1: Seq<int>,
    perm2: Seq<int>,
    asc: Seq<bool>,
    rows: Seq<Seq<SortKeyView>>,
    keep: Seq<bool>,
    n: int,
)
    requires
        arrangement_of(perm1, keep),
        arrangement_of(perm2, keep),
        total_preorder(asc, rows, keep),
        stably_sorted(perm1, asc, rows),
        stably_sorted(perm2, asc, rows),
        0 <= n <= perm1.len(),
        n <= perm2.len(),
    ensures
        forall|i: int| 0 <= i < n ==> perm1[i] == perm2[i],
    decreases n,
{
    if n > 0 {
        lemma_stable_agree(perm1, perm2, asc, rows, keep, n - 1);
        let i = n - 1;
        let a = perm1[i];
        let b = perm2[i];
        if a != b {
            assert(0 <= a < keep.len() && keep[a]);
            assert(0 <= b < keep.len() && keep[b]);
            assert(perm1.contains(b));
            let k = choose|k: int| 0 <= k < perm1.len() && perm1[k] == b;
            assert(perm2.contains(a));
            let j = choose|j: int| 0 <= j < perm2.len() && perm2[j] == a;
            if k < i {
                assert(perm2[k] == b);
                assert(false);
            }
            if j < i {
                assert(perm1[j] == a);
                assert(false);
            }
            assert(k > i && j > i);
            let o1 = row_order(asc, rows[perm1[i]], rows[perm1[k]]);
            let o2 = row_order(asc, rows[perm2[i]], rows[perm2[j]]);
            assert(o1 != Order::Greater && (o1 == Order::Equal ==> a < b));
            assert(o2 != Order::Greater && (o2 == Order::Equal ==> b < a));
            assert(row_order(asc, rows[a], rows[b]) == flip(row_order(asc, rows[b], rows[a])));
        }
    }
}

/// A stable sort is unique: where the descriptors order the kept rows as a
/// total preorder, there is exactly one arrangement of them that is stably
/// sorted. So requests that differ only in offset and limit page the same
/// arrangement: each gives, from its offset on, at most its limit of it.
pub proof fn law_stable_order_unique(
    perm1: Seq<int>,
    perm2: Seq<int>,
    asc: Seq<bool>,
    rows: Seq<Seq<SortKeyView>>,
    keep: Seq<bool>,
)
    requires
        arrangement_of(perm1, keep),
        arrangement_of(perm2, keep),
        total_preorder(asc, rows, keep),
        stably_sorted(perm1, asc, rows),
        stably_sorted(perm2, asc, rows),
    ensures
        perm1 == perm2,
{
    let m = if perm1.len() < perm2.len() {
        perm1.len() as int
    } else {
        perm2.len() as int
    };
    lemma_stable_agree(perm1, perm2, asc, rows, keep, m);
    if perm1.len() < perm2.len() {
        let b = perm2[m];
        assert(0 <= b < keep.len() && keep[b]);
        assert(perm1.contains(b));
        let k = choose|k: int| 0 <= k < perm1.len() && perm1[k] == b;
        assert(perm2[k] == b);
        assert(false);
    }
    if perm2.len() < perm1.len() {
        let a = perm1[m];
        assert(0 <= a < keep.len() && keep[a]);
        assert(perm2.contains(a));
        let j = choose|j: int| 0 <= j < perm2.len() && perm2[j] == a;
        assert(perm1[j] == a);
        assert(false);
    }
    assert(perm1 =~= perm2);
}

/// Two sort keys compare in one way only: both as numbers (neither NaN) or
/// both as texts.
pub open spec fn comparable(x: SortKeyView, y: SortKeyView) -> bool {
    ||| (x.number matches Some(NumKey::Number(_)) && y.number matches Some(NumKey::Number(_)))
    ||| (x.number is None && y.number is None)
}

/// The key order, turned round for a descending descriptor.
pub open spec fn directed(ascending: bool, o: Order) -> Order {
    if ascending {
        o
    } else {
        flip(o)
    }
}

/// Ties under the first descriptor are broken by the rest: where two rows
/// compare equal under the first descriptor, they compare as they do under
/// the remaining descriptors.
pub proof fn law_tie_falls_to_next(asc: Seq<bool>, a: Seq<SortKeyView>, b: Seq<SortKeyView>)
    requires
        asc.len() > 0,
        key_order(a[0], b[0]) == Order::Equal,
    ensures
        row_order(asc, a, b) == row_order(asc.drop_first(), a.drop_first(), b.drop_first()),
{
}

/// The first descriptor under which two rows differ decides their order,
/// turned round when that descriptor is descending; the descriptors after
/// it are not looked at.
pub proof fn law_first_difference_decides(
    asc: Seq<bool>,
    a: Seq<SortKeyView>,
    b: Seq<SortKeyView>,
    d: int,
)
    requires
        a.len() == asc.len(),
        b.len() == asc.len(),
        0 <= d < asc.len(),
        forall|e: int| 0 <= e < d ==> key_order(#[trigger] a[e], b[e]) == Order::Equal,
        key_order(a[d], b[d]) != Order::Equal,
    ensures
        row_order(asc, a, b) == directed(asc[d], key_order(a[d], b[d])),
    decreases d,
{
    if d > 0 {
        assert(key_order(a[0], b[0]) == Order::Equal);
        let a1 = a.drop_first();
        let b1 = b.drop_first();
        assert forall|e: int| 0 <= e < d - 1 implies key_order(#[trigger] a1[e], b1[e]) == Order::Equal by {
            assert(key_order(a[e + 1], b[e + 1]) == Order::Equal);
        }
        law_first_difference_decides(asc.drop_first(), a1, b1, d - 1);
    }
}

/// Rows equal under every descriptor compare equal.
pub proof fn law_equal_keys_equal_rows(asc: Seq<bool>, a: Seq<SortKeyView>, b: Seq<SortKeyView>)
    requires
        a.len() == asc.len(),
        b.len() == asc.len(),
        forall|e: int| 0 <= e < asc.len() ==> key_order(#[trigger] a[e], b[e]) == Order::Equal,
    ensures
        row_order(asc, a, b) == Order::Equal,
    decreases asc.len(),
{
    if asc.len() > 0 {
        assert(key_order(a[0], b[0]) == Order::Equal);
        let a1 = a.drop_first();
        let b1 = b.drop_first();
        assert forall|e: int| 0 <= e < asc.len() - 1 implies key_order(#[trigger] a1[e], b1[e])
            == Order::Equal by {
            assert(key_order(a[e + 1], b[e + 1]) == Order::Equal);
        }
        law_equal_keys_equal_rows(asc.drop_first(), a1, b1);
    }
}

proof fn lemma_key_order_props(x: SortKeyView, y: SortKeyView, z: SortKeyView)
    requires
        comparable(x, y),
        comparable(y, z),
        comparable(x, z),
    ensures
        key_order(x, y) == flip(key_order(y, x)),
        key_order(x, y) != Order::Greater && key_order(y, z) != Order::Greater ==> key_order(x, z)
            != Order::Greater,
        key_order(x, y) == Order::Less && key_order(y, z) != Order::Greater ==> key_order(x, z)
            == Order::Less,
        key_order(x, y) != Order::Greater && key_order(y, z) == Order::Less ==> key_order(x, z)
            == Order::Less,
        key_order(x, y) == Order::Equal && key_order(y, z) == Order::Equal ==> key_order(x, z)
            == Order::Equal,
{
    if x.number is None {
        crate::text::lemma_text_order_flip(x.text, y.text);
        crate::text::lemma_text_order_trans(x.text, y.text, z.text);
        crate::text::lemma_text_order_equal(x.text, y.text);
        crate::text::lemma_text_order_equal(y.text, z.text);
        crate::text::lemma_text_order_equal(x.text, z.text);
    }
}

/// The directed key order has the same properties.
proof fn lemma_directed_props(asc: bool, x: SortKeyView, y: SortKeyView, z: SortKeyView)
    requires
        comparable(x, y),
        comparable(y, z),
        comparable(x, z),
    ensures
        directed(asc, key_order(x, y)) == flip(directed(asc, key_order(y, x))),
        directed(asc, key_order(x, y)) != Order::Greater && directed(asc, key_order(y, z))
            != Order::Greater ==> directed(asc, key_order(x, z)) != Order::Greater,
        directed(asc, key_order(x, y)) == Order::Less && directed(asc, key_order(y, z))
            != Order::Greater ==> directed(asc, key_order(x, z)) == Order::Less,
        directed(asc, key_order(x, y)) != Order::Greater && directed(asc, key_order(y, z))
            == Order::Less ==> directed(asc, key_order(x, z)) == Order::Less,
        directed(asc, key_order(x, y)) == Order::Equal && directed(asc, key_order(y, z))
            == Order::Equal ==> directed(asc, key_order(x, z)) == Order::Equal,
{
    lemma_key_order_props(x, y, z);
    lemma_key_order_props(z, y, x);
    lemma_key_order_props(y, x, z);
    lemma_key_order_props(x, z, y);
    lemma_key_order_props(y, z, x);
    lemma_key_order_props(z, x, y);
}

/// Rows whose keys compare in one way at each descriptor.
pub open spec fn rows_comparable(n: nat, a: Seq<SortKeyView>, b: Seq<SortKeyView>) -> bool {
    &&& a.len() == n
    &&& b.len() == n
    &&& forall|d: int| 0 <= d < n ==> comparable(#[trigger] a[d], b[d])
}

proof fn lemma_row_order_props(asc: Seq<bool>, a: Seq<SortKeyView>, b: Seq<SortKeyView>, c: Seq<SortKeyView>)
    requires
        rows_comparable(asc.len(), a, b),
        rows_comparable(asc.len(), b, c),
        rows_comparable(asc.len(), a, c),
    ensures
        row_order(asc, a, b) == flip(row_order(asc, b, a)),
        row_order(asc, a, b) != Order::Greater && row_order(asc, b, c) != Order::Greater ==> row_order(
            asc,
            a,
            c,
        ) != Order::Greater,
    decreases asc.len(),
{
    if asc.len() > 0 {
        assert(comparable(a[0], b[0]) && comparable(b[0], c[0]) && comparable(a[0], c[0]));
        lemma_directed_props(asc[0], a[0], b[0], c[0]);
        let a1 = a.drop_first();
        let b1 = b.drop_first();
        let c1 = c.drop_first();
        assert forall|d: int| 0 <= d < asc.len() - 1 implies comparable(#[trigger] a1[d], b1[d]) by {
            assert(comparable(a[d + 1], b[d + 1]));
        }
        assert forall|d: int| 0 <= d < asc.len() - 1 implies comparable(#[trigger] b1[d], c1[d]) by {
            assert(comparable(b[d + 1], c[d + 1]));
        }
        assert forall|d: int| 0 <= d < asc.len() - 1 implies comparable(#[trigger] a1[d], c1[d]) by {
            assert(comparable(a[d + 1], c[d + 1]));
        }
        lemma_row_order_props(asc.drop_first(), a1, b1, c1);
        assert(key_order(a[0], b[0]) != Order::Equal ==> row_order(asc, a, b) == directed(
            asc[0],
            key_order(a[0], b[0]),
        ));
    }
}

/// Whether every kept row reads its key at descriptor `d` the same way: all
/// as numbers (none NaN), or all as texts.
pub open spec fn uniform_at(rows: Seq<Seq<SortKeyView>>, keep: Seq<bool>, d: int) -> bool {
    ||| forall|i: int|
        0 <= i < keep.len() && keep[i] ==> (#[trigger] rows[i][d]).number matches Some(
            NumKey::Number(_),
        )
    ||| forall|i: int| 0 <= i < keep.len() && keep[i] ==> (#[trigger] rows[i][d]).number is None
}

/// Keys that every kept row reads the same way at each descriptor.
pub open spec fn uniform_keys(asc: Seq<bool>, rows: Seq<Seq<SortKeyView>>, keep: Seq<bool>) -> bool {
    &&& forall|i: int| 0 <= i < keep.len() && keep[i] ==> (#[trigger] rows[i]).len() == asc.len()
    &&& forall|d: int| 0 <= d < asc.len() ==> #[trigger] uniform_at(rows, keep, d)
}

/// Sorting is total where the keys are uniform: when at every descriptor
/// the kept rows' keys are all numbers (none NaN) or all texts, the
/// descriptors order the kept rows as a total preorder, so the stable sort
/// of `arrange` and `apply` is the one stable sort (see
/// `law_stable_order_unique`).
pub proof fn law_uniform_keys_total(asc: Seq<bool>, rows: Seq<Seq<SortKeyView>>, keep: Seq<bool>)
    requires
        rows.len() == keep.len(),
        uniform_keys(asc, rows, keep),
    ensures
        total_preorder(asc, rows, keep),
{
    assert forall|a: int, b: int, c: int|
        0 <= a < keep.len() && 0 <= b < keep.len() && 0 <= c < keep.len() && keep[a] && keep[b]
            && keep[c] implies {
        &&& row_order(asc, rows[a], rows[b]) == flip(row_order(asc, rows[b], rows[a]))
        &&& row_order(asc, rows[a], rows[b]) != Order::Greater && row_order(asc, rows[b], rows[c])
            != Order::Greater ==> row_order(asc, rows[a], rows[c]) != Order::Greater
    } by {
        assert forall|d: int| 0 <= d < asc.len() implies comparable(#[trigger] rows[a][d], rows[b][d]) by {
            assert(uniform_at(rows, keep, d));
        }
        assert forall|d: int| 0 <= d < asc.len() implies comparable(#[trigger] rows[b][d], rows[c][d]) by {
            assert(uniform_at(rows, keep, d));
        }
        assert forall|d: int| 0 <= d < asc.len() implies comparable(#[trigger] rows[a][d], rows[c][d]) by {
            assert(uniform_at(rows, keep, d));
        }
        lemma_row_order_props(asc, rows[a], rows[b], rows[c]);
    }
    assert forall|a: int, b: int|
        0 <= a < keep.len() && 0 <= b < keep.len() && keep[a] && keep[b] implies #[trigger] row_order(
        asc,
        rows[a],
        rows[b],
    ) == flip(row_order(asc, rows[b], rows[a])) by {
        assert(0 <= a < keep.len() && 0 <= b < keep.len() && 0 <= a < keep.len() && keep[a] && keep[b]
            && keep[a]);
    }
}

/// Whether `read_number` answers texts alike: the same text read twice
/// gives the same reading.
pub open spec fn reads_fixed<F: Fn(&str) -> Option<NumKey>>(read_number: F) -> bool {
    forall|a1: &str, a2: &str, k1: Option<NumKey>, k2: Option<NumKey>|
        #![trigger call_ensures(read_number, (a1,), k1), call_ensures(read_number, (a2,), k2)]
        a1@ == a2@ && call_ensures(read_number, (a1,), k1) && call_ensures(read_number, (a2,), k2)
            ==> k1 == k2
}

/// Whether `show` answers values alike: the same value shown twice gives
/// the same text.
pub open spec fn shows_fixed<G: Fn(&Value) -> String>(show: G) -> bool {
    forall|x1: &Value, x2: &Value, s1: String, s2: String|
        #![trigger call_ensures(show, (x1,), s1), call_ensures(show, (x2,), s2)]
        x1.view() == x2.view() && call_ensures(show, (x1,), s1) && call_ensures(show, (x2,), s2)
            ==> s1@ == s2@
}

proof fn lemma_reads_unique<F: Fn(&str) -> Option<NumKey>>(
    read_number: F,
    s: Seq<char>,
    k1: Option<NumKey>,
    k2: Option<NumKey>,
)
    requires
        reads_fixed(read_number),
        reads_as(read_number, s, k1),
        reads_as(read_number, s, k2),
    ensures
        k1 == k2,
{
    let a1 = choose|a: &str| a@ == s && #[trigger] call_ensures(read_number, (a,), k1);
    let a2 = choose|a: &str| a@ == s && #[trigger] call_ensures(read_number, (a,), k2);
    assert(call_ensures(read_number, (a1,), k1) && call_ensures(read_number, (a2,), k2));
}

proof fn lemma_shows_unique<G: Fn(&Value) -> String>(show: G, v: Val, t1: Seq<char>, t2: Seq<char>)
    requires
        shows_fixed(show),
        shows_as(show, v, t1),
        shows_as(show, v, t2),
    ensures
        t1 == t2,
{
    let (x1, s1) = choose|x: &Value, s: String| x.view() == v && s@ == t1 && #[trigger] call_ensures(
        show,
        (x,),
        s,
    );
    let (x2, s2) = choose|x: &Value, s: String| x.view() == v && s@ == t2 && #[trigger] call_ensures(
        show,
        (x,),
        s,
    );
    assert(call_ensures(show, (x1,), s1) && call_ensures(show, (x2,), s2));
}

/// Evaluation is a function of the predicate and the object where the
/// closures answer alike: two evaluations give the same result.
pub proof fn law_evaluation_unique<F: Fn(&str) -> Option<NumKey>, G: Fn(&Value) -> String>(
    p: PredicateView,
    o: ObjectView,
    show: G,
    read_number: F,
    b1: bool,
    b2: bool,
)
    requires
        reads_fixed(read_number),
        shows_fixed(show),
        evaluation(p, o, show, read_number, b1),
        evaluation(p, o, show, read_number, b2),
    ensures
        b1 == b2,
{
    match lookup(o.values, p.key) {
        None => {},
        Some(v) => {
            let (t1, lk1, rk1) = choose|t: Seq<char>, lk: Option<NumKey>, rk: Option<NumKey>|
                {
                    &&& match scalar_text_of(v) {
                        Some(st) => t == st,
                        None => shows_as(show, v, t),
                    }
                    &&& reads_as(read_number, normalized(p.case_insensitive, t), lk)
                    &&& reads_as(read_number, normalized(p.case_insensitive, p.value), rk)
                    &&& b1 == #[trigger] holds_of_text(p, t, lk, rk)
                };
            let (t2, lk2, rk2) = choose|t: Seq<char>, lk: Option<NumKey>, rk: Option<NumKey>|
                {
                    &&& match scalar_text_of(v) {
                        Some(st) => t == st,
                        None => shows_as(show, v, t),
                    }
                    &&& reads_as(read_number, normalized(p.case_insensitive, t), lk)
                    &&& reads_as(read_number, normalized(p.case_insensitive, p.value), rk)
                    &&& b2 == #[trigger] holds_of_text(p, t, lk, rk)
                };
            if scalar_text_of(v) is None {
                lemma_shows_unique(show, v, t1, t2);
            }
            lemma_reads_unique(read_number, normalized(p.case_insensitive, t1), lk1, lk2);
            lemma_reads_unique(read_number, normalized(p.case_insensitive, p.value), rk1, rk2);
        },
    }
}

/// `!=` is the negation of `==`: for an attribute that is present,
/// evaluating the predicate with `NotEqual` gives the opposite of
/// evaluating it with `Equal` (where `show` answers alike); for a missing
/// attribute both give false.
pub proof fn law_not_equal_negates_evaluation<F: Fn(&str) -> Option<NumKey>, G: Fn(&Value) -> String>(
    p: PredicateView,
    o: ObjectView,
    show: G,
    read_number: F,
    b_eq: bool,
    b_ne: bool,
)
    requires
        shows_fixed(show),
        evaluation(PredicateView { op: PredicateOperator::Equal, ..p }, o, show, read_number, b_eq),
        evaluation(PredicateView { op: PredicateOperator::NotEqual, ..p }, o, show, read_number, b_ne),
    ensures
        lookup(o.values, p.key) is Some ==> b_ne == !b_eq,
        lookup(o.values, p.key) is None ==> !b_ne && !b_eq,
{
    let pe = PredicateView { op: PredicateOperator::Equal, ..p };
    let pn = PredicateView { op: PredicateOperator::NotEqual, ..p };
    match lookup(o.values, p.key) {
        None => {},
        Some(v) => {
            let (t1, lk1, rk1) = choose|t: Seq<char>, lk: Option<NumKey>, rk: Option<NumKey>|
                {
                    &&& match scalar_text_of(v) {
                        Some(st) => t == st,
                        None => shows_as(show, v, t),
                    }
                    &&& reads_as(read_number, normalized(pe.case_insensitive, t), lk)
                    &&& reads_as(read_number, normalized(pe.case_insensitive, pe.value), rk)
                    &&& b_eq == #[trigger] holds_of_text(pe, t, lk, rk)
                };
            let (t2, lk2, rk2) = choose|t: Seq<char>, lk: Option<NumKey>, rk: Option<NumKey>|
                {
                    &&& match scalar_text_of(v) {
                        Some(st) => t == st,
                        None => shows_as(show, v, t),
                    }
                    &&& reads_as(read_number, normalized(pn.case_insensitive, t), lk)
                    &&& reads_as(read_number, normalized(pn.case_insensitive, pn.value), rk)
                    &&& b_ne == #[trigger] holds_of_text(pn, t, lk, rk)
                };
            if scalar_text_of(v) is None {
                lemma_shows_unique(show, v, t1, t2);
            }
        },
    }
}

/// Whether a request selects an object is whether it is in scope and every
/// predicate evaluates to true of it: given the evaluations `verdicts` of
/// its predicates (with closures that answer alike), a selection gives
/// exactly that.
pub proof fn law_matches_all_evaluations<F: Fn(&str) -> Option<NumKey>, G: Fn(&Value) -> String>(
    r: FetchRequestView,
    o: ObjectView,
    show: G,
    read_number: F,
    b: bool,
    verdicts: Seq<bool>,
)
    requires
        reads_fixed(read_number),
        shows_fixed(show),
        selection(r, o, show, read_number, b),
        verdicts.len() == all_predicates_of(r).len(),
        forall|i: int|
            0 <= i < verdicts.len() ==> #[trigger] evaluation(
                all_predicates_of(r)[i],
                o,
                show,
                read_number,
                verdicts[i],
            ),
    ensures
        b == (in_scope_of(r, o) && forall|i: int| 0 <= i < verdicts.len() ==> #[trigger] verdicts[i]),
{
    let ps = all_predicates_of(r);
    if b {
        assert forall|i: int| 0 <= i < verdicts.len() implies #[trigger] verdicts[i] by {
            assert(evaluation(ps[i], o, show, read_number, true));
            assert(evaluation(ps[i], o, show, read_number, verdicts[i]));
            law_evaluation_unique(ps[i], o, show, read_number, true, verdicts[i]);
        }
    } else if in_scope_of(r, o) {
        let i = choose|i: int| 0 <= i < ps.len() && #[trigger] evaluation(ps[i], o, show, read_number, false);
        assert(evaluation(ps[i], o, show, read_number, verdicts[i]));
        law_evaluation_unique(ps[i], o, show, read_number, false, verdicts[i]);
    }
}

/// Whether `r` is what applying a request (view `rv`, descriptors `ds`) to
/// `objects` may give: with `keep` the selection of each object and `rows`
/// the sort keys the descriptors give them, `perm` an arrangement of the
/// kept objects (stably sorted where the keys order them as a total
/// preorder), and `r` its page from the offset, at most the limit long.
pub open spec fn applied<F: Fn(&str) -> Option<NumKey>, G: Fn(&Value) -> String>(
    ds: Seq<SortDescriptor>,
    rv: FetchRequestView,
    objects: Seq<ManagedObject>,
    show: G,
    read_number: F,
    r: Seq<ManagedObject>,
) -> bool {
    exists|keep: Seq<bool>, rows: Seq<Seq<SortKeyView>>, perm: Seq<int>|
        #![trigger arrangement_of(perm, keep), keys_chosen(ds, objects, show, read_number, rows)]
        {
            &&& keep.len() == objects.len()
            &&& forall|i: int|
                0 <= i < keep.len() ==> #[trigger] selection(rv, objects[i]@, show, read_number, keep[i])
            &&& keys_chosen(ds, objects, show, read_number, rows)
            &&& arrangement_of(perm, keep)
            &&& total_preorder(ascending_of(ds), rows, keep) ==> stably_sorted(
                perm,
                ascending_of(ds),
                rows,
            )
            &&& r.len() == page_len(perm.len() as int, rv.fetch_offset as int, rv.fetch_limit)
            &&& forall|i: int|
                0 <= i < r.len() ==> (#[trigger] r[i])@ == objects[perm[page_start(
                    perm.len() as int,
                    rv.fetch_offset as int,
                ) + i]]@
        }
}

/// Selection is a function of the request and the object where the
/// closures answer alike.
pub proof fn law_selection_unique<F: Fn(&str) -> Option<NumKey>, G: Fn(&Value) -> String>(
    r: FetchRequestView,
    o: ObjectView,
    show: G,
    read_number: F,
    b1: bool,
    b2: bool,
)
    requires
        reads_fixed(read_number),
        shows_fixed(show),
        selection(r, o, show, read_number, b1),
        selection(r, o, show, read_number, b2),
    ensures
        b1 == b2,
{
    let ps = all_predicates_of(r);
    if b1 != b2 {
        assert(selection(r, o, show, read_number, true));
        assert(selection(r, o, show, read_number, false));
        let i = choose|i: int| 0 <= i < ps.len() && #[trigger] evaluation(ps[i], o, show, read_number, false);
        assert(evaluation(ps[i], o, show, read_number, true));
        law_evaluation_unique(ps[i], o, show, read_number, true, false);
    }
}

proof fn lemma_sort_key_unique<F: Fn(&str) -> Option<NumKey>, G: Fn(&Value) -> String>(
    d: SortDescriptorView,
    o: ObjectView,
    show: G,
    read_number: F,
    k1: SortKeyView,
    k2: SortKeyView,
)
    requires
        reads_fixed(read_number),
        shows_fixed(show),
        sort_key_choice(d, o, show, read_number, k1),
        sort_key_choice(d, o, show, read_number, k2),
    ensures
        k1 == k2,
{
    if sort_text_of(lookup(o.values, d.key)) is None {
        let v = lookup(o.values, d.key)->0;
        let t1 = choose|t: Seq<char>| #[trigger] shows_as(show, v, t) && k1.text == normalized(d.case_insensitive, t);
        let t2 = choose|t: Seq<char>| #[trigger] shows_as(show, v, t) && k2.text == normalized(d.case_insensitive, t);
        lemma_shows_unique(show, v, t1, t2);
    }
    lemma_reads_unique(read_number, k1.text, k1.number, k2.number);
}

/// Whether the descriptors order `objects` totally, whatever the selection:
/// every choice of their sort keys is a total preorder (see
/// `law_uniform_keys_total` for when that is so).
pub open spec fn sorts_totally<F: Fn(&str) -> Option<NumKey>, G: Fn(&Value) -> String>(
    ds: Seq<SortDescriptor>,
    objects: Seq<ManagedObject>,
    show: G,
    read_number: F,
) -> bool {
    forall|rows: Seq<Seq<SortKeyView>>, keep: Seq<bool>|
        #![trigger keys_chosen(ds, objects, show, read_number, rows), total_preorder(ascending_of(ds), rows, keep)]
        keys_chosen(ds, objects, show, read_number, rows) && keep.len() == objects.len()
            ==> total_preorder(ascending_of(ds), rows, keep)
}

/// A page is a slice of the whole: applying a request gives, from its
/// offset on (or nothing, past the end), at most its limit of what the same
/// request without offset and limit gives, where the closures answer alike
/// and the descriptors order the objects totally.
pub proof fn law_page_of_full<F: Fn(&str) -> Option<NumKey>, G: Fn(&Value) -> String>(
    ds: Seq<SortDescriptor>,
    rv: FetchRequestView,
    objects: Seq<ManagedObject>,
    show: G,
    read_number: F,
    full: Seq<ManagedObject>,
    page: Seq<ManagedObject>,
)
    requires
        reads_fixed(read_number),
        shows_fixed(show),
        sorts_totally(ds, objects, show, read_number),
        applied(
            ds,
            FetchRequestView { fetch_offset: 0, fetch_limit: None, ..rv },
            objects,
            show,
            read_number,
            full,
        ),
        applied(ds, rv, objects, show, read_number, page),
    ensures
        page.len() == page_len(full.len() as int, rv.fetch_offset as int, rv.fetch_limit),
        forall|i: int|
            0 <= i < page.len() ==> (#[trigger] page[i])@ == full[page_start(
                full.len() as int,
                rv.fetch_offset as int,
            ) + i]@,
{
    let rv0 = FetchRequestView { fetch_offset: 0, fetch_limit: None, ..rv };
    let asc = ascending_of(ds);
    let (keep1, rows1, perm1) = choose|keep: Seq<bool>, rows: Seq<Seq<SortKeyView>>, perm: Seq<int>|
        #![trigger arrangement_of(perm, keep), keys_chosen(ds, objects, show, read_number, rows)]
        {
            &&& keep.len() == objects.len()
            &&& forall|i: int|
                0 <= i < keep.len() ==> #[trigger] selection(rv0, objects[i]@, show, read_number, keep[i])
            &&& keys_chosen(ds, objects, show, read_number, rows)
            &&& arrangement_of(perm, keep)
            &&& total_preorder(asc, rows, keep) ==> stably_sorted(perm, asc, rows)
            &&& full.len() == page_len(perm.len() as int, rv0.fetch_offset as int, rv0.fetch_limit)
            &&& forall|i: int|
                0 <= i < full.len() ==> (#[trigger] full[i])@ == objects[perm[page_start(
                    perm.len() as int,
                    rv0.fetch_offset as int,
                ) + i]]@
        };
    let (keep2, rows2, perm2) = choose|keep: Seq<bool>, rows: Seq<Seq<SortKeyView>>, perm: Seq<int>|
        #![trigger arrangement_of(perm, keep), keys_chosen(ds, objects, show, read_number, rows)]
        {
            &&& keep.len() == objects.len()
            &&& forall|i: int|
                0 <= i < keep.len() ==> #[trigger] selection(rv, objects[i]@, show, read_number, keep[i])
            &&& keys_chosen(ds, objects, show, read_number, rows)
            &&& arrangement_of(perm, keep)
            &&& total_preorder(asc, rows, keep) ==> stably_sorted(perm, asc, rows)
            &&& page.len() == page_len(perm.len() as int, rv.fetch_offset as int, rv.fetch_limit)
            &&& forall|i: int|
                0 <= i < page.len() ==> (#[trigger] page[i])@ == objects[perm[page_start(
                    perm.len() as int,
                    rv.fetch_offset as int,
                ) + i]]@
        };
    assert(all_predicates_of(rv0) == all_predicates_of(rv));
    assert forall|i: int| 0 <= i < keep1.len() implies keep1[i] == keep2[i] by {
        assert(selection(rv0, objects[i]@, show, read_number, keep1[i]));
        assert(selection(rv, objects[i]@, show, read_number, keep2[i]));
        assert(selection(rv, objects[i]@, show, read_number, keep1[i]));
        law_selection_unique(rv, objects[i]@, show, read_number, keep1[i], keep2[i]);
    }
    assert(keep1 =~= keep2);
    assert forall|i: int| 0 <= i < rows1.len() implies rows1[i] == rows2[i] by {
        assert forall|d: int| 0 <= d < rows1[i].len() implies rows1[i][d] == rows2[i][d] by {
            assert(sort_key_choice(ds[d]@, objects[i]@, show, read_number, rows1[i][d]));
            assert(sort_key_choice(ds[d]@, objects[i]@, show, read_number, rows2[i][d]));
            lemma_sort_key_unique(ds[d]@, objects[i]@, show, read_number, rows1[i][d], rows2[i][d]);
        }
        assert(rows1[i] =~= rows2[i]);
    }
    assert(rows1 =~= rows2);
    assert(total_preorder(asc, rows1, keep1));
    law_stable_order_unique(perm1, perm2, asc, rows1, keep1);
    assert(page_start(perm1.len() as int, 0) == 0);
}

} // verus!
