//! What holds of parsing and expansion together.

use crate::expand::{expression_expanded, expression_pieces, items_expanded};
use crate::expand::{lookup, rendered, table_of, OperatorTableView};
use crate::item::{ExpressionView, ItemView, VarspecView};
use crate::parse::{expression_parsed, find_char, template_parsed};
use crate::parse::{lemma_find_char, lemma_find_char_is};
use crate::ValueView;
use vstd::prelude::*;

verus! {

/// A template without `{` expands to itself, whatever the bindings are.
pub proof fn lemma_literal_passthrough(t: Seq<char>, bindings: Map<Seq<char>, ValueView>)
    requires
        !t.contains('{'),
    ensures
        items_expanded(template_parsed(t), bindings) == t,
{
    lemma_find_char(t, '{');
    let open = find_char(t, '{');
    if open < t.len() {
        assert(t.contains(t[open]));
    }
    if t.len() > 0 {
        let items = seq![ItemView::Literal(t.take(open))];
        assert(t.take(open) =~= t);
        assert(items.drop_last() =~= Seq::<ItemView>::empty());
        assert(items_expanded(Seq::<ItemView>::empty(), bindings) =~= Seq::<char>::empty());
        assert(items_expanded(items, bindings) =~= t);
    } else {
        assert(items_expanded(template_parsed(t), bindings) =~= t);
    }
}

/// Braces around text that is no expression and holds no `}` parse to one literal that
/// holds the braces and the text, so the template expands to itself.
pub proof fn lemma_invalid_expression_kept(b: Seq<char>, bindings: Map<Seq<char>, ValueView>)
    requires
        expression_parsed(b) is None,
        !b.contains('}'),
    ensures
        template_parsed(seq!['{'] + b + seq!['}']) == seq![
            ItemView::Literal(seq!['{'] + b + seq!['}']),
        ],
        items_expanded(template_parsed(seq!['{'] + b + seq!['}']), bindings) == seq!['{'] + b
            + seq!['}'],
{
    let text = seq!['{'] + b + seq!['}'];
    assert(text[0] == '{');
    assert(find_char(text, '{') == 0);
    let rest = text.skip(1);
    assert(rest =~= b + seq!['}']);
    assert forall|k: int| 0 <= k < b.len() implies rest[k] != '}' by {
        assert(b.contains(b[k]));
    }
    lemma_find_char_is(rest, '}', b.len() as int);
    let close = find_char(rest, '}');
    assert(rest.take(close) =~= b);
    assert(text.subrange(0, close + 2) =~= text);
    let tail = rest.skip(close + 1);
    assert(tail =~= Seq::<char>::empty());
    assert(template_parsed(tail) =~= Seq::<ItemView>::empty());
    let items = seq![ItemView::Literal(text)];
    assert(template_parsed(text) =~= items);
    assert(items.drop_last() =~= Seq::<ItemView>::empty());
    assert(items_expanded(Seq::<ItemView>::empty(), bindings) =~= Seq::<char>::empty());
    assert(items_expanded(items, bindings) =~= text);
}

/// Variables that are all unbound write no piece.
pub proof fn lemma_unbound_pieces(
    t: OperatorTableView,
    specs: Seq<VarspecView>,
    bindings: Map<Seq<char>, ValueView>,
)
    requires
        forall|i: int| 0 <= i < specs.len() ==> !bindings.contains_key(#[trigger] specs[i].varname),
    ensures
        expression_pieces(t, specs, bindings) == Seq::<Seq<char>>::empty(),
    decreases specs.len(),
{
    if specs.len() > 0 {
        let before = specs.drop_last();
        assert forall|i: int| 0 <= i < before.len() implies !bindings.contains_key(
            #[trigger] before[i].varname,
        ) by {
            assert(before[i] == specs[i]);
        }
        lemma_unbound_pieces(t, before, bindings);
        assert(!bindings.contains_key(specs[specs.len() - 1].varname));
    }
}

/// An expression whose variables are all unbound expands to nothing: neither the
/// operator's first text nor a name is written.
pub proof fn lemma_unbound_writes_nothing(e: ExpressionView, bindings: Map<Seq<char>, ValueView>)
    requires
        forall|i: int|
            0 <= i < e.variable_list.len() ==> !bindings.contains_key(
                #[trigger] e.variable_list[i].varname,
            ),
    ensures
        expression_expanded(e, bindings) == Seq::<char>::empty(),
{
    lemma_unbound_pieces(table_of(e.operator), e.variable_list, bindings);
}

/// A binding without the empty collections: an empty list and an empty associative
/// array count as no binding.
pub open spec fn effective(value: Option<ValueView>) -> Option<ValueView> {
    match value {
        Some(ValueView::List(list)) if list.len() == 0 => None,
        Some(ValueView::AssociativeArray(pairs)) if pairs.len() == 0 => None,
        _ => value,
    }
}

/// A variable bound to an empty list or an empty associative array writes what an
/// unbound variable writes: nothing.
pub proof fn lemma_rendered_effective(
    t: OperatorTableView,
    var: VarspecView,
    value: Option<ValueView>,
)
    ensures
        rendered(t, var, value) == rendered(t, var, effective(value)),
{
}

/// Two sets of bindings that differ only in binding a name to an empty list or an empty
/// associative array, or not at all, give the same pieces.
pub proof fn lemma_pieces_effective(
    t: OperatorTableView,
    specs: Seq<VarspecView>,
    a: Map<Seq<char>, ValueView>,
    b: Map<Seq<char>, ValueView>,
)
    requires
        forall|name: Seq<char>| #[trigger]
            effective(lookup(a, name)) == effective(lookup(b, name)),
    ensures
        expression_pieces(t, specs, a) == expression_pieces(t, specs, b),
    decreases specs.len(),
{
    if specs.len() > 0 {
        lemma_pieces_effective(t, specs.drop_last(), a, b);
        let var = specs.last();
        lemma_rendered_effective(t, var, lookup(a, var.varname));
        lemma_rendered_effective(t, var, lookup(b, var.varname));
        assert(effective(lookup(a, var.varname)) == effective(lookup(b, var.varname)));
    }
}

/// Two sets of bindings that differ only in binding a name to an empty list or an empty
/// associative array, or not at all, expand every template to the same text.
pub proof fn lemma_empty_collection_as_unbound(
    items: Seq<ItemView>,
    a: Map<Seq<char>, ValueView>,
    b: Map<Seq<char>, ValueView>,
)
    requires
        forall|name: Seq<char>| #[trigger]
            effective(lookup(a, name)) == effective(lookup(b, name)),
    ensures
        items_expanded(items, a) == items_expanded(items, b),
    decreases items.len(),
{
    if items.len() > 0 {
        lemma_empty_collection_as_unbound(items.drop_last(), a, b);
        match items.last() {
            ItemView::Literal(_) => {},
            ItemView::Expression(e) => {
                lemma_pieces_effective(table_of(e.operator), e.variable_list, a, b);
            },
        }
    }
}

/// Every item is a literal.
pub open spec fn all_literal(items: Seq<ItemView>) -> bool {
    forall|i: int| 0 <= i < items.len() ==> #[trigger] items[i] is Literal
}

/// The text of two runs of items, one after the other, is the text of the first and then
/// the text of the second.
pub proof fn lemma_items_expanded_concat(
    a: Seq<ItemView>,
    b: Seq<ItemView>,
    bindings: Map<Seq<char>, ValueView>,
)
    ensures
        items_expanded(a + b, bindings) == items_expanded(a, bindings) + items_expanded(
            b,
            bindings,
        ),
    decreases b.len(),
{
    if b.len() == 0 {
        assert(a + b =~= a);
        assert(items_expanded(a, bindings) + items_expanded(b, bindings) =~= items_expanded(
            a,
            bindings,
        ));
    } else {
        lemma_items_expanded_concat(a, b.drop_last(), bindings);
        assert((a + b).drop_last() =~= a + b.drop_last());
        assert((a + b).last() == b.last());
        assert(items_expanded(a + b, bindings) =~= items_expanded(a, bindings) + items_expanded(
            b,
            bindings,
        ));
    }
}

/// A template in which no expression parses expands to itself, whatever the bindings are.
pub proof fn lemma_literal_template_kept(t: Seq<char>, bindings: Map<Seq<char>, ValueView>)
    requires
        all_literal(template_parsed(t)),
    ensures
        items_expanded(template_parsed(t), bindings) == t,
    decreases t.len(),
{
    let none = Seq::<ItemView>::empty();
    assert(items_expanded(none, bindings) =~= Seq::<char>::empty());
    let open = find_char(t, '{');
    lemma_find_char(t, '{');
    let lead = if open > 0 {
        seq![ItemView::Literal(t.take(open))]
    } else {
        none
    };
    assert(items_expanded(lead, bindings) =~= t.take(open)) by {
        if open > 0 {
            assert(lead.drop_last() =~= none);
        }
    }
    if open == t.len() {
        assert(t.take(open) =~= t);
    } else {
        let rest = t.skip(open + 1);
        let close = find_char(rest, '}');
        lemma_find_char(rest, '}');
        if close == rest.len() {
            let last = seq![ItemView::Literal(t.skip(open))];
            assert(last.drop_last() =~= none);
            assert(items_expanded(last, bindings) =~= t.skip(open));
            lemma_items_expanded_concat(lead, last, bindings);
            assert(t.take(open) + t.skip(open) =~= t);
        } else {
            let tail = rest.skip(close + 1);
            let parsed = template_parsed(t);
            let item = parsed[lead.len() as int];
            let one = seq![item];
            assert(parsed =~= lead + one + template_parsed(tail));
            assert(item is Literal);
            assert(expression_parsed(rest.take(close)) is None);
            assert forall|i: int| 0 <= i < template_parsed(tail).len() implies #[trigger]
                template_parsed(tail)[i] is Literal by {
                assert(template_parsed(tail)[i] == parsed[lead.len() + 1 + i]);
            }
            lemma_literal_template_kept(tail, bindings);
            assert(one.drop_last() =~= none);
            assert(items_expanded(one, bindings) =~= t.subrange(open, open + close + 2));
            lemma_items_expanded_concat(lead, one, bindings);
            lemma_items_expanded_concat(lead + one, template_parsed(tail), bindings);
            assert(t.take(open) + t.subrange(open, open + close + 2) + tail =~= t);
        }
    }
}

/// Braces around text that is no expression: where no expression parses in what the
/// text holds after a `}` of its own, the template expands to itself, whatever the
/// bindings are.
pub proof fn lemma_invalid_expression_roundtrip(
    b: Seq<char>,
    bindings: Map<Seq<char>, ValueView>,
)
    requires
        expression_parsed(b) is None,
        all_literal(template_parsed(seq!['{'] + b + seq!['}'])),
    ensures
        items_expanded(template_parsed(seq!['{'] + b + seq!['}']), bindings) == seq!['{'] + b
            + seq!['}'],
{
    lemma_literal_template_kept(seq!['{'] + b + seq!['}'], bindings);
}

/// Without bindings a template never expands to a longer text, and it expands to a
/// shorter one where an expression parses in it: the expression writes nothing.
pub proof fn lemma_unbound_template_length(t: Seq<char>)
    ensures
        items_expanded(template_parsed(t), Map::empty()).len() <= t.len(),
        !all_literal(template_parsed(t)) ==> items_expanded(template_parsed(t), Map::empty()).len()
            < t.len(),
    decreases t.len(),
{
    let bindings = Map::<Seq<char>, ValueView>::empty();
    let parsed = template_parsed(t);
    if all_literal(parsed) {
        lemma_literal_template_kept(t, bindings);
    } else {
        let none = Seq::<ItemView>::empty();
        assert(items_expanded(none, bindings) =~= Seq::<char>::empty());
        let open = find_char(t, '{');
        lemma_find_char(t, '{');
        let lead = if open > 0 {
            seq![ItemView::Literal(t.take(open))]
        } else {
            none
        };
        assert(items_expanded(lead, bindings) =~= t.take(open)) by {
            if open > 0 {
                assert(lead.drop_last() =~= none);
            }
        }
        let rest = t.skip(open + 1);
        let close = find_char(rest, '}');
        if open < t.len() {
            lemma_find_char(rest, '}');
        }
        if open == t.len() {
            assert(parsed =~= lead);
        } else if close == rest.len() {
            assert(parsed =~= lead + seq![ItemView::Literal(t.skip(open))]);
        } else {
            let tail = rest.skip(close + 1);
            let item = parsed[lead.len() as int];
            let one = seq![item];
            assert(parsed =~= lead + one + template_parsed(tail));
            lemma_unbound_template_length(tail);
            assert(one.drop_last() =~= none);
            match item {
                ItemView::Literal(text) => {
                    assert(items_expanded(one, bindings) =~= text);
                    if all_literal(template_parsed(tail)) {
                        assert forall|i: int| 0 <= i < parsed.len() implies #[trigger]
                            parsed[i] is Literal by {
                            if i > lead.len() {
                                assert(parsed[i] == template_parsed(tail)[i - lead.len() - 1]);
                            }
                        }
                    }
                },
                ItemView::Expression(e) => {
                    lemma_unbound_writes_nothing(e, bindings);
                    assert(items_expanded(one, bindings) =~= Seq::<char>::empty());
                },
            }
            lemma_items_expanded_concat(lead, one, bindings);
            lemma_items_expanded_concat(lead + one, template_parsed(tail), bindings);
        }
    }
}

} // verus!
