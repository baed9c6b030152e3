//! The template grammar: text to items. An expression that does not parse becomes a
//! literal that holds its source text.

use crate::encoding::{is_alpha, is_digit, is_hexdig};
use crate::encoding::{spec_is_alpha, spec_is_digit, spec_is_hexdig, starts_with_triplet};
use crate::item::{Expression, Item, ModifierLevel4, Operator, Varspec};
use crate::item::{items_view, varspecs_view, ExpressionView, ItemView, VarspecView};
use vstd::prelude::*;
use vstd::slice::slice_subrange;

verus! {

/// The index of the first `c` in `s`, or the length of `s` where there is none.
pub open spec fn find_char(s: Seq<char>, c: char) -> int
    decreases s.len(),
{
    if s.len() == 0 || s[0] == c {
        0
    } else {
        1 + find_char(s.skip(1), c)
    }
}

/// `find_char` gives an index within bounds, with no `c` before it and `c` at it.
pub proof fn lemma_find_char(s: Seq<char>, c: char)
    ensures
        0 <= find_char(s, c) <= s.len(),
        find_char(s, c) < s.len() ==> s[find_char(s, c)] == c,
        forall|k: int| 0 <= k < find_char(s, c) ==> s[k] != c,
    decreases s.len(),
{
    if s.len() == 0 || s[0] == c {
    } else {
        let t = s.skip(1);
        lemma_find_char(t, c);
        assert forall|k: int| 0 <= k < find_char(s, c) implies s[k] != c by {
            if k > 0 {
                assert(s[k] == t[k - 1]);
            }
        }
    }
}

/// An index with no `c` before it, and `c` at it unless it is the end, is `find_char`.
pub proof fn lemma_find_char_is(s: Seq<char>, c: char, i: int)
    requires
        0 <= i <= s.len(),
        forall|k: int| 0 <= k < i ==> s[k] != c,
        i < s.len() ==> s[i] == c,
    ensures
        find_char(s, c) == i,
    decreases i,
{
    if i > 0 {
        let t = s.skip(1);
        assert(s[0] != c);
        assert forall|k: int| 0 <= k < i - 1 implies t[k] != c by {
            assert(t[k] == s[k + 1]);
        }
        lemma_find_char_is(t, c, i - 1);
    }
}

/// A character of a variable's name other than an escape triplet.
pub open spec fn spec_is_varchar(c: char) -> bool {
    spec_is_alpha(c) || spec_is_digit(c) || c == '_'
}

/// Every character is a name character, a `.`, or part of an escape triplet.
pub open spec fn varname_chars(s: Seq<char>) -> bool
    decreases s.len(),
{
    if s.len() == 0 {
        true
    } else if s[0] == '%' {
        starts_with_triplet(s) && varname_chars(s.skip(3))
    } else {
        (spec_is_varchar(s[0]) || s[0] == '.') && varname_chars(s.skip(1))
    }
}

/// A variable's name: not empty, and made of name characters, `.` and escape triplets.
pub open spec fn is_varname(s: Seq<char>) -> bool {
    s.len() > 0 && varname_chars(s)
}

/// The value of a decimal digit; 0 for any other character.
pub open spec fn digit_value(c: char) -> nat {
    if spec_is_digit(c) {
        (c as nat - 0x30) as nat
    } else {
        0
    }
}

/// The number that a run of decimal digits writes.
pub open spec fn decimal_value(s: Seq<char>) -> nat
    decreases s.len(),
{
    if s.len() == 0 {
        0
    } else {
        decimal_value(s.drop_last()) * 10 + digit_value(s.last())
    }
}

/// Every character is a decimal digit.
pub open spec fn all_digits(s: Seq<char>) -> bool {
    forall|k: int| 0 <= k < s.len() ==> spec_is_digit(#[trigger] s[k])
}

/// The length that follows `:`: decimal digits, the first of them not `0`, that write a
/// number below 10000.
pub open spec fn prefix_size(s: Seq<char>) -> Option<usize> {
    if s.len() > 0 && s[0] != '0' && all_digits(s) && decimal_value(s) < 10000 {
        Some(decimal_value(s) as usize)
    } else {
        None
    }
}

/// One variable with its modifier. At most one of `:` and `*` may occur; `*` only as
/// the last character.
pub open spec fn varspec_parsed(s: Seq<char>) -> Option<VarspecView> {
    let star = find_char(s, '*');
    let colon = find_char(s, ':');
    if s.len() == 0 {
        None
    } else if star == s.len() && colon == s.len() {
        if is_varname(s) {
            Some(VarspecView { varname: s, modifier_level4: None })
        } else {
            None
        }
    } else if star == s.len() {
        let name = s.take(colon);
        match prefix_size(s.skip(colon + 1)) {
            Some(size) if is_varname(name) => Some(
                VarspecView { varname: name, modifier_level4: Some(ModifierLevel4::Prefix(size)) },
            ),
            _ => None,
        }
    } else if colon == s.len() {
        let name = s.take(star);
        if star == s.len() - 1 && is_varname(name) {
            Some(VarspecView { varname: name, modifier_level4: Some(ModifierLevel4::Explode) })
        } else {
            None
        }
    } else {
        None
    }
}

/// The variables of a comma-separated list: every one must parse.
pub open spec fn variable_list_parsed(s: Seq<char>) -> Option<Seq<VarspecView>>
    decreases s.len(),
    via variable_list_parsed_decreases
{
    let comma = find_char(s, ',');
    match varspec_parsed(s.take(comma)) {
        None => None,
        Some(first) => if comma == s.len() {
            Some(seq![first])
        } else {
            match variable_list_parsed(s.skip(comma + 1)) {
                None => None,
                Some(rest) => Some(seq![first] + rest),
            }
        },
    }
}

#[via_fn]
/// The rest after a comma is shorter than the list.
proof fn variable_list_parsed_decreases(s: Seq<char>) {
    lemma_find_char(s, ',');
}

/// The operator that a sigil selects.
pub open spec fn operator_of(c: char) -> Option<Operator> {
    if c == '+' {
        Some(Operator::Reserved)
    } else if c == '#' {
        Some(Operator::Fragment)
    } else if c == '.' {
        Some(Operator::Label)
    } else if c == '/' {
        Some(Operator::PathSegment)
    } else if c == ';' {
        Some(Operator::PathParameter)
    } else if c == '?' {
        Some(Operator::FormQuery)
    } else if c == '&' {
        Some(Operator::FormContinuation)
    } else {
        None
    }
}

/// The expression that the text between two braces writes, if it writes one.
pub open spec fn expression_parsed(body: Seq<char>) -> Option<ExpressionView> {
    if body.len() == 0 {
        None
    } else {
        let operator = operator_of(body[0]);
        let list = if operator is Some {
            body.skip(1)
        } else {
            body
        };
        match variable_list_parsed(list) {
            None => None,
            Some(variable_list) => Some(ExpressionView { operator, variable_list }),
        }
    }
}

/// The items of a template. Text up to the next `{` is a literal. A `{` without a `}`
/// after it makes the rest of the text a literal. Otherwise the text between the two
/// is an expression, or, where it does not parse, a literal that holds both braces and
/// what stands between them.
pub open spec fn template_parsed(t: Seq<char>) -> Seq<ItemView>
    decreases t.len(),
    via template_parsed_decreases
{
    let open = find_char(t, '{');
    let lead = if open > 0 {
        seq![ItemView::Literal(t.take(open))]
    } else {
        Seq::empty()
    };
    let rest = t.skip(open + 1);
    let close = find_char(rest, '}');
    if open == t.len() {
        lead
    } else if close == rest.len() {
        lead + seq![ItemView::Literal(t.skip(open))]
    } else {
        let item = match expression_parsed(rest.take(close)) {
            Some(expression) => ItemView::Expression(expression),
            None => ItemView::Literal(t.subrange(open, open + close + 2)),
        };
        lead + seq![item] + template_parsed(rest.skip(close + 1))
    }
}

#[via_fn]
/// The rest after a closing brace is shorter than the template.
proof fn template_parsed_decreases(t: Seq<char>) {
    lemma_find_char(t, '{');
    let open = find_char(t, '{');
    if open < t.len() {
        lemma_find_char(t.skip(open + 1), '}');
    }
}

/// The position of the first `c` in `s`, or the length of `s`.
pub fn find(s: &[char], c: char) -> (r: usize)
    ensures
        r == find_char(s@, c),
{
    let mut i: usize = 0;
    while i < s.len() && s[i] != c
        invariant
            i <= s.len(),
            forall|k: int| 0 <= k < i ==> s@[k] != c,
        decreases s.len() - i,
    {
        i += 1;
    }
    proof {
        lemma_find_char_is(s@, c, i as int);
    }
    i
}

/// The characters as a string.
pub fn string_of(s: &[char]) -> (r: String)
    ensures
        r@ == s@,
{
    let mut r = String::new();
    let mut i: usize = 0;
    while i < s.len()
        invariant
            i <= s.len(),
            r@ == s@.take(i as int),
        decreases s.len() - i,
    {
        r.push(s[i]);
        i += 1;
        assert(r@ =~= s@.take(i as int));
    }
    assert(s@.take(s.len() as int) =~= s@);
    r
}

/// The characters of a string.
pub fn chars_of(s: &str) -> (r: Vec<char>)
    ensures
        r@ == s@,
{
    let mut v: Vec<char> = Vec::new();
    for c in it: s.chars()
        invariant
            it.seq() == s@,
            v@ == it.seq().take(it.index()),
    {
        v.push(c);
        assert(v@ =~= s@.take(it.index() + 1));
    }
    assert(s@.take(s@.len() as int) =~= s@);
    v
}

/// Whether `c` may stand in a variable's name on its own: a letter, a digit or `_`.
pub fn is_varchar(c: char) -> (r: bool)
    ensures
        r == spec_is_varchar(c),
{
    is_alpha(c) || is_digit(c) || '_' == c
}

/// Whether two hexadecimal digits stand at `at`.
pub fn is_pct_encoded(s: &[char], at: usize) -> (r: bool)
    ensures
        r == (at + 2 <= s.len() && spec_is_hexdig(s@[at as int]) && spec_is_hexdig(
            s@[at + 1],
        )),
{
    at < s.len() && s.len() - at >= 2 && is_hexdig(s[at]) && is_hexdig(s[at + 1])
}

/// `Ok` where two hexadecimal digits stand at `at`.
pub fn require_pct_encoded(s: &[char], at: usize) -> (r: Result<(), ()>)
    ensures
        r is Ok <==> (at + 2 <= s.len() && spec_is_hexdig(s@[at as int]) && spec_is_hexdig(
            s@[at + 1],
        )),
{
    if is_pct_encoded(s, at) {
        Ok(())
    } else {
        Err(())
    }
}

/// The name as a string, where `s` is a variable's name.
pub fn parse_varname(s: &[char]) -> (r: Result<String, ()>)
    ensures
        r is Ok <==> is_varname(s@),
        r matches Ok(name) ==> name@ == s@,
{
    if s.len() == 0 {
        return Err(());
    }
    let mut i: usize = 0;
    assert(s@.skip(0) =~= s@);
    while i < s.len()
        invariant
            i <= s.len(),
            varname_chars(s@) == varname_chars(s@.skip(i as int)),
        decreases s.len() - i,
    {
        let ghost t = s@.skip(i as int);
        let c = s[i];
        assert(t[0] == c);
        if c == '%' {
            if require_pct_encoded(s, i + 1).is_err() {
                assert(!starts_with_triplet(t));
                return Err(());
            }
            assert(t[1] == s@[i + 1] && t[2] == s@[i + 2]);
            assert(t.skip(3) =~= s@.skip(i + 3));
            i += 3;
        } else if is_varchar(c) || '.' == c {
            assert(t.skip(1) =~= s@.skip(i + 1));
            i += 1;
        } else {
            return Err(());
        }
    }
    Ok(string_of(s))
}

/// The number written by the first characters of `s` is at most the number written by
/// all of `s`.
pub proof fn lemma_decimal_value_monotone(s: Seq<char>, k: int)
    requires
        0 <= k <= s.len(),
    ensures
        decimal_value(s.take(k)) <= decimal_value(s),
    decreases s.len() - k,
{
    if k == s.len() {
        assert(s.take(k) =~= s);
    } else {
        lemma_decimal_value_monotone(s.drop_last(), k);
        assert(s.drop_last().take(k) =~= s.take(k));
    }
}

/// The length that follows `:` in a variable.
pub fn parse_size(s: &[char]) -> (r: Result<usize, ()>)
    ensures
        match r {
            Ok(size) => prefix_size(s@) == Some(size),
            Err(_) => prefix_size(s@) is None,
        },
{
    if s.len() == 0 || s[0] == '0' {
        return Err(());
    }
    let mut value: usize = 0;
    let mut i: usize = 0;
    while i < s.len()
        invariant
            i <= s.len(),
            value == decimal_value(s@.take(i as int)),
            value < 10000,
            all_digits(s@.take(i as int)),
        decreases s.len() - i,
    {
        let c = s[i];
        if !is_digit(c) {
            return Err(());
        }
        let digit: usize = (c as u32 - 0x30) as usize;
        proof {
            let t = s@.take(i + 1);
            assert(t.drop_last() =~= s@.take(i as int));
            assert(t.last() == c);
            assert(digit == digit_value(c));
        }
        value = value * 10 + digit;
        if value >= 10000 {
            proof {
                lemma_decimal_value_monotone(s@, i + 1);
            }
            return Err(());
        }
        i += 1;
    }
    assert(s@.take(s.len() as int) =~= s@);
    Ok(value)
}

/// One variable of an expression, with its modifier.
pub fn parse_varspec(s: &[char]) -> (r: Result<Varspec, ()>)
    ensures
        match r {
            Ok(varspec) => varspec_parsed(s@) == Some(varspec@),
            Err(_) => varspec_parsed(s@) is None,
        },
{
    let n = s.len();
    if n == 0 {
        Err(())
    } else {
        let asterisk = find(s, '*');
        let colon = find(s, ':');
        proof {
            lemma_find_char(s@, '*');
            lemma_find_char(s@, ':');
        }
        if asterisk == n && colon == n {
            match parse_varname(s) {
                Ok(varname) => Ok(Varspec { varname, modifier_level4: None }),
                Err(_) => Err(()),
            }
        } else if asterisk == n {
            let varname = slice_subrange(s, 0, colon);
            let size = slice_subrange(s, colon + 1, n);
            match parse_varname(varname) {
                Err(_) => Err(()),
                Ok(varname) => match parse_size(size) {
                    Err(_) => Err(()),
                    Ok(size) => Ok(
                        Varspec { varname, modifier_level4: Some(ModifierLevel4::Prefix(size)) },
                    ),
                },
            }
        } else if colon == n {
            if asterisk != n - 1 {
                Err(())
            } else {
                match parse_varname(slice_subrange(s, 0, asterisk)) {
                    Err(_) => Err(()),
                    Ok(varname) => Ok(
                        Varspec { varname, modifier_level4: Some(ModifierLevel4::Explode) },
                    ),
                }
            }
        } else {
            Err(())
        }
    }
}

/// What the variables read so far and the variables of the rest make together.
pub open spec fn list_then(done: Seq<VarspecView>, rest: Option<Seq<VarspecView>>) -> Option<
    Seq<VarspecView>,
> {
    match rest {
        None => None,
        Some(more) => Some(done + more),
    }
}

/// The variables of a comma-separated list.
pub fn parse_variable_list(s: &[char]) -> (r: Result<Vec<Varspec>, ()>)
    ensures
        match r {
            Ok(list) => variable_list_parsed(s@) == Some(varspecs_view(list@)),
            Err(_) => variable_list_parsed(s@) is None,
        },
{
    let mut list: Vec<Varspec> = Vec::new();
    let mut start: usize = 0;
    assert(s@.skip(0) =~= s@);
    assert(Seq::<VarspecView>::empty() + variable_list_parsed(s@).unwrap_or(Seq::empty())
        =~= variable_list_parsed(s@).unwrap_or(Seq::empty()));
    loop
        invariant
            start <= s.len(),
            variable_list_parsed(s@) == list_then(
                varspecs_view(list@),
                variable_list_parsed(s@.skip(start as int)),
            ),
        decreases s.len() - start,
    {
        let rest = slice_subrange(s, start, s.len());
        let comma = find(rest, ',');
        proof {
            lemma_find_char(rest@, ',');
        }
        let ghost done = varspecs_view(list@);
        match parse_varspec(slice_subrange(rest, 0, comma)) {
            Err(_) => {
                return Err(());
            },
            Ok(varspec) => {
                let ghost first = varspec@;
                list.push(varspec);
                assert(varspecs_view(list@) =~= done + seq![first]);
                if comma == rest.len() {
                    return Ok(list);
                }
                proof {
                    let tail = rest@.skip(comma + 1);
                    assert(tail =~= s@.skip(start + comma + 1));
                    match variable_list_parsed(tail) {
                        None => {},
                        Some(more) => {
                            assert(done + (seq![first] + more) =~= (done + seq![first]) + more);
                        },
                    }
                }
                start = start + comma + 1;
            },
        }
    }
}

/// The operator that a sigil selects.
pub fn operator_for(c: char) -> (r: Option<Operator>)
    ensures
        r == operator_of(c),
{
    match c {
        '+' => Some(Operator::Reserved),
        '#' => Some(Operator::Fragment),
        '.' => Some(Operator::Label),
        '/' => Some(Operator::PathSegment),
        ';' => Some(Operator::PathParameter),
        '?' => Some(Operator::FormQuery),
        '&' => Some(Operator::FormContinuation),
        _ => None,
    }
}

/// The expression that the text between two braces writes.
pub fn parse_expression(s: &[char]) -> (r: Result<Item, ()>)
    ensures
        match r {
            Ok(item) => match expression_parsed(s@) {
                Some(expression) => item@ == ItemView::Expression(expression),
                None => false,
            },
            Err(_) => expression_parsed(s@) is None,
        },
{
    if s.len() == 0 {
        Err(())
    } else {
        let operator = operator_for(s[0]);
        let list = if operator.is_some() {
            slice_subrange(s, 1, s.len())
        } else {
            s
        };
        match parse_variable_list(list) {
            Err(_) => Err(()),
            Ok(variable_list) => {
                let expression = Expression { operator, variable_list };
                let item = Item::Expression(expression);
                Ok(item)
            },
        }
    }
}

/// The text as a literal item.
pub fn parse_literal(s: &[char]) -> (r: Item)
    ensures
        r@ == ItemView::Literal(s@),
{
    Item::Literal(string_of(s))
}

/// The items of a template. Every text is a template: what does not parse as an
/// expression is kept as a literal.
pub fn parse_template(template: &str) -> (items: Vec<Item>)
    ensures
        items_view(items@) == template_parsed(template@),
        forall|i: int| 0 <= i < items@.len() ==> item_wf(#[trigger] items@[i]@),
{
    proof {
        lemma_template_parsed_wf(template@);
    }
    let chars = chars_of(template);
    let t = chars.as_slice();
    let mut items: Vec<Item> = Vec::new();
    let mut start: usize = 0;
    assert(t@.skip(0) =~= t@);
    assert(items_view(items@) + template_parsed(t@) =~= template_parsed(t@));
    while start < t.len()
        invariant
            start <= t.len(),
            t@ == template@,
            template_parsed(t@) == items_view(items@) + template_parsed(t@.skip(start as int)),
        decreases t.len() - start,
    {
        let text = slice_subrange(t, start, t.len());
        let open = find(text, '{');
        let ghost done = items_view(items@);
        let ghost lead = if open > 0 {
            seq![ItemView::Literal(text@.take(open as int))]
        } else {
            Seq::empty()
        };
        proof {
            lemma_find_char(text@, '{');
        }
        if open > 0 {
            let item = parse_literal(slice_subrange(text, 0, open));
            items.push(item);
        }
        assert(items_view(items@) =~= done + lead);
        let ghost none = Seq::<char>::empty();
        assert(template_parsed(none) =~= Seq::<ItemView>::empty());
        assert(t@.skip(t.len() as int) =~= none);
        if open == text.len() {
            assert(done + lead + template_parsed(none) =~= done + lead);
            start = t.len();
        } else {
            let rest = slice_subrange(text, open + 1, text.len());
            let close = find(rest, '}');
            proof {
                lemma_find_char(rest@, '}');
            }
            if close == rest.len() {
                let item = parse_literal(slice_subrange(text, open, text.len()));
                let ghost last = item@;
                items.push(item);
                assert(items_view(items@) =~= done + lead + seq![last]);
                assert(done + lead + seq![last] + template_parsed(none) =~= done + (lead
                    + seq![last]));
                start = t.len();
            } else {
                let item = match parse_expression(slice_subrange(rest, 0, close)) {
                    Ok(item) => item,
                    Err(_) => parse_literal(slice_subrange(text, open, open + close + 2)),
                };
                let ghost last = item@;
                items.push(item);
                assert(items_view(items@) =~= done + lead + seq![last]);
                let ghost tail = rest@.skip(close + 1);
                assert(tail =~= t@.skip(start + open + close + 2));
                assert(done + lead + seq![last] + template_parsed(tail) =~= done + (lead
                    + seq![last] + template_parsed(tail)));
                start = start + open + close + 2;
            }
        }
    }
    assert(t@.skip(t.len() as int) =~= Seq::<char>::empty());
    assert(items_view(items@) + Seq::<ItemView>::empty() =~= items_view(items@));
    assert forall|i: int| 0 <= i < items@.len() implies item_wf(#[trigger] items@[i]@) by {
        assert(items@[i]@ == items_view(items@)[i]);
    }
    items
}

/// A variable as the parser gives it: a name of the grammar, and a prefix length from
/// 1 to 9999 where it has one.
pub open spec fn varspec_wf(v: VarspecView) -> bool {
    is_varname(v.varname) && match v.modifier_level4 {
        Some(ModifierLevel4::Prefix(size)) => 1 <= size <= 9999,
        _ => true,
    }
}

/// An expression as the parser gives it: at least one variable, each of them well formed.
pub open spec fn expression_wf(e: ExpressionView) -> bool {
    e.variable_list.len() > 0 && forall|i: int|
        0 <= i < e.variable_list.len() ==> varspec_wf(#[trigger] e.variable_list[i])
}

/// An item as the parser gives it: a literal that is not empty, or a well-formed
/// expression.
pub open spec fn item_wf(item: ItemView) -> bool {
    match item {
        ItemView::Literal(text) => text.len() > 0,
        ItemView::Expression(e) => expression_wf(e),
    }
}

/// A variable that parses is well formed.
pub proof fn lemma_varspec_parsed_wf(s: Seq<char>)
    ensures
        varspec_parsed(s) matches Some(v) ==> varspec_wf(v),
{
    let colon = find_char(s, ':');
    lemma_find_char(s, ':');
    let size = s.skip(colon + 1);
    if colon < s.len() && prefix_size(size) is Some {
        lemma_decimal_value_monotone(size, 1);
        let head = size.take(1);
        assert(head.drop_last() =~= Seq::<char>::empty());
        assert(decimal_value(head.drop_last()) == 0);
        assert(head.last() == size[0]);
        assert(spec_is_digit(size[0]));
    }
}

/// The variables of a list that parses are well formed, and there is at least one.
pub proof fn lemma_variable_list_parsed_wf(s: Seq<char>)
    ensures
        variable_list_parsed(s) matches Some(list) ==> list.len() > 0 && forall|i: int|
            0 <= i < list.len() ==> varspec_wf(#[trigger] list[i]),
    decreases s.len(),
{
    let comma = find_char(s, ',');
    lemma_find_char(s, ',');
    lemma_varspec_parsed_wf(s.take(comma));
    if comma < s.len() {
        lemma_variable_list_parsed_wf(s.skip(comma + 1));
    }
}

/// Every item of a parsed template is well formed.
pub proof fn lemma_template_parsed_wf(t: Seq<char>)
    ensures
        forall|i: int|
            0 <= i < template_parsed(t).len() ==> item_wf(#[trigger] template_parsed(t)[i]),
    decreases t.len(),
{
    let open = find_char(t, '{');
    lemma_find_char(t, '{');
    let parsed = template_parsed(t);
    let lead = if open > 0 {
        seq![ItemView::Literal(t.take(open))]
    } else {
        Seq::empty()
    };
    let rest = t.skip(open + 1);
    let close = find_char(rest, '}');
    if open == t.len() {
        assert(parsed =~= lead);
    } else {
        lemma_find_char(rest, '}');
        if close == rest.len() {
            assert(parsed =~= lead + seq![ItemView::Literal(t.skip(open))]);
        } else {
            let body = rest.take(close);
            let tail = template_parsed(rest.skip(close + 1));
            lemma_template_parsed_wf(rest.skip(close + 1));
            if expression_parsed(body) is Some {
                let list = if operator_of(body[0]) is Some {
                    body.skip(1)
                } else {
                    body
                };
                lemma_variable_list_parsed_wf(list);
            }
            let item = parsed[lead.len() as int];
            assert(parsed =~= lead + seq![item] + tail);
            assert(item_wf(item));
            assert forall|i: int| 0 <= i < parsed.len() implies item_wf(#[trigger] parsed[i]) by {
                if i > lead.len() {
                    assert(parsed[i] == tail[i - lead.len() - 1]);
                }
            }
        }
    }
}

} // verus!
