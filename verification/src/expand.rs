//! Expansion: items and bindings to text.

use crate::encoding::{each_encoded, unreserved, unreserved_reserved};
use crate::encoding::{push_allow_unreserved, push_allow_unreserved_reserved};
use crate::item::{items_view, varspecs_view};
use crate::item::{Expression, ExpressionView, Item, ItemView};
use crate::item::{ModifierLevel4, Operator, Varspec, VarspecView};
use crate::{pairs_view, strings_view, Value, ValueView, Variables};
use vstd::prelude::*;
use vstd::string::{StrSliceExecFns, StringExecFns};

verus! {

/// How an operator renders its variables.
pub struct OperatorTable {
    /// What stands before the first value that is written.
    pub first: &'static str,
    /// What stands between two values.
    pub sep: &'static str,
    /// Whether a value is written with its name.
    pub named: bool,
    /// What follows the name of an empty value.
    pub ifemp: &'static str,
    /// Whether reserved characters are written unescaped.
    pub reserved: bool,
}

/// An `OperatorTable` with its texts as sequences of characters.
pub struct OperatorTableView {
    pub first: Seq<char>,
    pub sep: Seq<char>,
    pub named: bool,
    pub ifemp: Seq<char>,
    pub reserved: bool,
}

impl View for OperatorTable {
    type V = OperatorTableView;

    open spec fn view(&self) -> OperatorTableView {
        OperatorTableView {
            first: self.first@,
            sep: self.sep@,
            named: self.named,
            ifemp: self.ifemp@,
            reserved: self.reserved,
        }
    }
}

/// The table of each operator.
pub open spec fn table_of(operator: Option<Operator>) -> OperatorTableView {
    match operator {
        None => OperatorTableView {
            first: seq![],
            sep: seq![','],
            named: false,
            ifemp: seq![],
            reserved: false,
        },
        Some(Operator::Reserved) => OperatorTableView {
            first: seq![],
            sep: seq![','],
            named: false,
            ifemp: seq![],
            reserved: true,
        },
        Some(Operator::Fragment) => OperatorTableView {
            first: seq!['#'],
            sep: seq![','],
            named: false,
            ifemp: seq![],
            reserved: true,
        },
        Some(Operator::Label) => OperatorTableView {
            first: seq!['.'],
            sep: seq!['.'],
            named: false,
            ifemp: seq![],
            reserved: false,
        },
        Some(Operator::PathSegment) => OperatorTableView {
            first: seq!['/'],
            sep: seq!['/'],
            named: false,
            ifemp: seq![],
            reserved: false,
        },
        Some(Operator::PathParameter) => OperatorTableView {
            first: seq![';'],
            sep: seq![';'],
            named: true,
            ifemp: seq![],
            reserved: false,
        },
        Some(Operator::FormQuery) => OperatorTableView {
            first: seq!['?'],
            sep: seq!['&'],
            named: true,
            ifemp: seq!['='],
            reserved: false,
        },
        Some(Operator::FormContinuation) => OperatorTableView {
            first: seq!['&'],
            sep: seq!['&'],
            named: true,
            ifemp: seq!['='],
            reserved: false,
        },
    }
}

/// The characters that are written unescaped.
pub open spec fn allowed_set(reserved: bool) -> spec_fn(char) -> bool {
    if reserved {
        unreserved_reserved()
    } else {
        unreserved()
    }
}

/// A text with every character outside the allowed set escaped.
pub open spec fn value_text(reserved: bool, s: Seq<char>) -> Seq<char> {
    each_encoded(allowed_set(reserved), s)
}

/// The pieces with `sep` between each two.
pub open spec fn joined(pieces: Seq<Seq<char>>, sep: Seq<char>) -> Seq<char>
    decreases pieces.len(),
{
    if pieces.len() == 0 {
        Seq::empty()
    } else if pieces.len() == 1 {
        pieces[0]
    } else {
        joined(pieces.drop_last(), sep) + sep + pieces.last()
    }
}

/// `lead` and the joined pieces; nothing at all where there is no piece.
pub open spec fn led_join(lead: Seq<char>, pieces: Seq<Seq<char>>, sep: Seq<char>) -> Seq<char> {
    if pieces.len() == 0 {
        Seq::empty()
    } else {
        lead + joined(pieces, sep)
    }
}

/// One more piece adds what stands before it and the piece: `lead` before the first,
/// `sep` before every other.
pub proof fn lemma_led_join_push(
    lead: Seq<char>,
    pieces: Seq<Seq<char>>,
    sep: Seq<char>,
    piece: Seq<char>,
)
    ensures
        led_join(lead, pieces.push(piece), sep) == led_join(lead, pieces, sep) + (if pieces.len()
            == 0 {
            lead
        } else {
            sep
        }) + piece,
{
    let more = pieces.push(piece);
    assert(more.drop_last() =~= pieces);
    if pieces.len() == 0 {
        assert(led_join(lead, more, sep) =~= led_join(lead, pieces, sep) + lead + piece);
    } else {
        assert(lead + (joined(pieces, sep) + sep + piece) =~= (lead + joined(pieces, sep)) + sep
            + piece);
    }
}

/// The members of a list, each escaped.
pub open spec fn list_pieces(reserved: bool, list: Seq<Seq<char>>) -> Seq<Seq<char>> {
    Seq::new(list.len(), |i: int| value_text(reserved, list[i]))
}

/// The pairs of an associative array, each as key, `kv_sep` and value, both escaped.
pub open spec fn pair_pieces(
    reserved: bool,
    kv_sep: Seq<char>,
    pairs: Seq<(Seq<char>, Seq<char>)>,
) -> Seq<Seq<char>> {
    Seq::new(
        pairs.len(),
        |i: int| value_text(reserved, pairs[i].0) + kv_sep + value_text(reserved, pairs[i].1),
    )
}

/// What follows a name: `ifemp` for an empty value, else `=` and the escaped value.
pub open spec fn named_value(t: OperatorTableView, value: Seq<char>) -> Seq<char> {
    if value.len() == 0 {
        t.ifemp
    } else {
        seq!['='] + value_text(t.reserved, value)
    }
}

/// The members of a list, each with the variable's name before it.
pub open spec fn named_list_pieces(
    t: OperatorTableView,
    name: Seq<char>,
    list: Seq<Seq<char>>,
) -> Seq<Seq<char>> {
    Seq::new(list.len(), |i: int| name + named_value(t, list[i]))
}

/// The pairs of an associative array, each with its key as a name.
pub open spec fn named_pair_pieces(
    t: OperatorTableView,
    pairs: Seq<(Seq<char>, Seq<char>)>,
) -> Seq<Seq<char>> {
    Seq::new(pairs.len(), |i: int| value_text(false, pairs[i].0) + named_value(t, pairs[i].1))
}

/// The name and what follows it, where the operator writes names.
pub open spec fn name_part(t: OperatorTableView, name: Seq<char>, empty: bool) -> Seq<char> {
    if t.named {
        name + if empty {
            t.ifemp
        } else {
            seq!['=']
        }
    } else {
        Seq::empty()
    }
}

/// A string cut to the length of a prefix modifier.
pub open spec fn truncated(s: Seq<char>, modifier: Option<ModifierLevel4>) -> Seq<char> {
    match modifier {
        Some(ModifierLevel4::Prefix(size)) if size < s.len() => s.take(size as int),
        _ => s,
    }
}

/// A string value: cut to its prefix, with its name where the operator writes names.
pub open spec fn string_rendered(t: OperatorTableView, var: VarspecView, s: Seq<char>) -> Seq<
    char,
> {
    let cut = truncated(s, var.modifier_level4);
    name_part(t, var.varname, cut.len() == 0) + value_text(t.reserved, cut)
}

/// A list that is not exploded: its members joined by commas.
pub open spec fn list_rendered(t: OperatorTableView, var: VarspecView, list: Seq<Seq<char>>)
    -> Seq<char> {
    name_part(t, var.varname, false) + joined(list_pieces(t.reserved, list), seq![','])
}

/// An associative array that is not exploded: keys and values joined by commas.
pub open spec fn assoc_rendered(
    t: OperatorTableView,
    var: VarspecView,
    pairs: Seq<(Seq<char>, Seq<char>)>,
) -> Seq<char> {
    name_part(t, var.varname, false) + joined(
        pair_pieces(t.reserved, seq![','], pairs),
        seq![','],
    )
}

/// An exploded list: its members joined by the operator's separator, each with the
/// variable's name where the operator writes names.
pub open spec fn list_exploded(t: OperatorTableView, var: VarspecView, list: Seq<Seq<char>>)
    -> Seq<char> {
    if t.named {
        joined(named_list_pieces(t, var.varname, list), t.sep)
    } else {
        joined(list_pieces(t.reserved, list), t.sep)
    }
}

/// An exploded associative array: its pairs as key, `=` and value, joined by the
/// operator's separator; where the operator writes names, an empty value is written
/// as the key and `ifemp`.
pub open spec fn assoc_exploded(t: OperatorTableView, pairs: Seq<(Seq<char>, Seq<char>)>) -> Seq<
    char,
> {
    if t.named {
        joined(named_pair_pieces(t, pairs), t.sep)
    } else {
        joined(pair_pieces(t.reserved, seq!['='], pairs), t.sep)
    }
}

/// What a value writes under a variable without an explode modifier, or `None` for an
/// empty list or associative array. A prefix modifier cuts a string only.
pub open spec fn plain_rendered(t: OperatorTableView, var: VarspecView, value: ValueView)
    -> Option<Seq<char>> {
    match value {
        ValueView::String(s) => Some(string_rendered(t, var, s)),
        ValueView::List(list) => if list.len() == 0 {
            None
        } else {
            Some(list_rendered(t, var, list))
        },
        ValueView::AssociativeArray(pairs) => if pairs.len() == 0 {
            None
        } else {
            Some(assoc_rendered(t, var, pairs))
        },
    }
}

/// What a value writes under a variable with an explode modifier, or `None` for an
/// empty list or associative array. A string is written as without the modifier.
pub open spec fn explode_rendered(t: OperatorTableView, var: VarspecView, value: ValueView)
    -> Option<Seq<char>> {
    match value {
        ValueView::String(s) => Some(string_rendered(t, var, s)),
        ValueView::List(list) => if list.len() == 0 {
            None
        } else {
            Some(list_exploded(t, var, list))
        },
        ValueView::AssociativeArray(pairs) => if pairs.len() == 0 {
            None
        } else {
            Some(assoc_exploded(t, pairs))
        },
    }
}

/// What one variable writes, or `None` where it writes nothing and takes no separator:
/// where it is unbound, or bound to an empty list or an empty associative array.
pub open spec fn rendered(t: OperatorTableView, var: VarspecView, value: Option<ValueView>)
    -> Option<Seq<char>> {
    match value {
        None => None,
        Some(value) => if var.modifier_level4 == Some(ModifierLevel4::Explode) {
            explode_rendered(t, var, value)
        } else {
            plain_rendered(t, var, value)
        },
    }
}

/// A piece is written after what stands before it, and the next piece will follow the
/// separator; without a piece nothing changes.
pub open spec fn emitted(
    piece: Option<Seq<char>>,
    text: Seq<char>,
    lead: Seq<char>,
    sep: Seq<char>,
    text_after: Seq<char>,
    lead_after: Seq<char>,
) -> bool {
    match piece {
        None => text_after == text && lead_after == lead,
        Some(piece) => text_after == text + lead + piece && lead_after == sep,
    }
}

/// What a name is bound to.
pub open spec fn lookup(bindings: Map<Seq<char>, ValueView>, name: Seq<char>) -> Option<
    ValueView,
> {
    if bindings.contains_key(name) {
        Some(bindings[name])
    } else {
        None
    }
}

/// What the variables of an expression write, in order, without those that write nothing.
pub open spec fn expression_pieces(
    t: OperatorTableView,
    specs: Seq<VarspecView>,
    bindings: Map<Seq<char>, ValueView>,
) -> Seq<Seq<char>>
    decreases specs.len(),
{
    if specs.len() == 0 {
        Seq::empty()
    } else {
        let before = expression_pieces(t, specs.drop_last(), bindings);
        match rendered(t, specs.last(), lookup(bindings, specs.last().varname)) {
            None => before,
            Some(piece) => before.push(piece),
        }
    }
}

/// The text of an expression: the operator's `first`, then what its variables write,
/// joined by the operator's `sep`; nothing where no variable writes anything.
pub open spec fn expression_expanded(e: ExpressionView, bindings: Map<Seq<char>, ValueView>)
    -> Seq<char> {
    let t = table_of(e.operator);
    led_join(t.first, expression_pieces(t, e.variable_list, bindings), t.sep)
}

/// The text of one item: a literal as it stands, an expression expanded.
pub open spec fn item_expanded(item: ItemView, bindings: Map<Seq<char>, ValueView>) -> Seq<char> {
    match item {
        ItemView::Literal(text) => text,
        ItemView::Expression(e) => expression_expanded(e, bindings),
    }
}

/// The texts of the items, one after the other.
pub open spec fn items_expanded(items: Seq<ItemView>, bindings: Map<Seq<char>, ValueView>) -> Seq<
    char,
>
    decreases items.len(),
{
    if items.len() == 0 {
        Seq::empty()
    } else {
        items_expanded(items.drop_last(), bindings) + item_expanded(items.last(), bindings)
    }
}

/// The table of an operator.
pub fn get_operator_table(operator: Option<Operator>) -> (t: OperatorTable)
    ensures
        t@ == table_of(operator),
{
    proof {
        reveal_strlit("");
        reveal_strlit(",");
        reveal_strlit("#");
        reveal_strlit(".");
        reveal_strlit("/");
        reveal_strlit(";");
        reveal_strlit("?");
        reveal_strlit("&");
        reveal_strlit("=");
        assert(""@ =~= seq![]);
        assert(","@ =~= seq![',']);
        assert("#"@ =~= seq!['#']);
        assert("."@ =~= seq!['.']);
        assert("/"@ =~= seq!['/']);
        assert(";"@ =~= seq![';']);
        assert("?"@ =~= seq!['?']);
        assert("&"@ =~= seq!['&']);
        assert("="@ =~= seq!['=']);
    }
    match operator {
        None => OperatorTable { first: "", sep: ",", named: false, ifemp: "", reserved: false },
        Some(Operator::Reserved) => OperatorTable {
            first: "",
            sep: ",",
            named: false,
            ifemp: "",
            reserved: true,
        },
        Some(Operator::Fragment) => OperatorTable {
            first: "#",
            sep: ",",
            named: false,
            ifemp: "",
            reserved: true,
        },
        Some(Operator::Label) => OperatorTable {
            first: ".",
            sep: ".",
            named: false,
            ifemp: "",
            reserved: false,
        },
        Some(Operator::PathSegment) => OperatorTable {
            first: "/",
            sep: "/",
            named: false,
            ifemp: "",
            reserved: false,
        },
        Some(Operator::PathParameter) => OperatorTable {
            first: ";",
            sep: ";",
            named: true,
            ifemp: "",
            reserved: false,
        },
        Some(Operator::FormQuery) => OperatorTable {
            first: "?",
            sep: "&",
            named: true,
            ifemp: "=",
            reserved: false,
        },
        Some(Operator::FormContinuation) => OperatorTable {
            first: "&",
            sep: "&",
            named: true,
            ifemp: "=",
            reserved: false,
        },
    }
}

/// Writes what stands before the next value: at its first use the text it was made
/// with, afterwards the separator.
pub struct PushSep<'a> {
    pub current: &'a str,
    pub sep: &'a str,
}

impl<'a> PushSep<'a> {
    /// Appends what stands before the next value; from then on that is the separator.
    pub fn push(&mut self, dst: &mut String)
        ensures
            final(dst)@ == old(dst)@ + old(self).current@,
            final(self).current@ == old(self).sep@,
            final(self).sep@ == old(self).sep@,
    {
        dst.append(self.current);
        self.current = self.sep;
    }
}

/// A writer that appends `first` at its first use and `sep` at every later one.
pub fn make_push_sep<'a>(first: &'a str, sep: &'a str) -> (r: PushSep<'a>)
    ensures
        r.current@ == first@,
        r.sep@ == sep@,
{
    PushSep { current: first, sep }
}

/// Appends `src` with the characters outside the allowed set escaped.
pub fn push_allow(reserved: bool, dst: &mut String, src: &str)
    ensures
        final(dst)@ == old(dst)@ + value_text(reserved, src@),
{
    if reserved {
        push_allow_unreserved_reserved(dst, src);
    } else {
        push_allow_unreserved(dst, src);
    }
}

/// Writes the members of a list, each after what `push_sep` writes.
pub fn expand_list(dst: &mut String, reserved: bool, push_sep: &mut PushSep, value: &[String])
    ensures
        final(dst)@ == old(dst)@ + led_join(
            old(push_sep).current@,
            list_pieces(reserved, strings_view(value@)),
            old(push_sep).sep@,
        ),
        final(push_sep).sep@ == old(push_sep).sep@,
        final(push_sep).current@ == if value@.len() == 0 {
            old(push_sep).current@
        } else {
            old(push_sep).sep@
        },
{
    let ghost start = dst@;
    let ghost lead = push_sep.current@;
    let ghost sep = push_sep.sep@;
    let ghost pieces = list_pieces(reserved, strings_view(value@));
    let mut i: usize = 0;
    assert(dst@ =~= start + led_join(lead, pieces.take(0), sep));
    while i < value.len()
        invariant
            i <= value.len(),
            pieces == list_pieces(reserved, strings_view(value@)),
            dst@ == start + led_join(lead, pieces.take(i as int), sep),
            push_sep.sep@ == sep,
            push_sep.current@ == if i == 0 {
                lead
            } else {
                sep
            },
        decreases value.len() - i,
    {
        let ghost done = pieces.take(i as int);
        push_sep.push(dst);
        push_allow(reserved, dst, value[i].as_str());
        proof {
            lemma_led_join_push(lead, done, sep, pieces[i as int]);
            assert(pieces.take(i + 1) =~= done.push(pieces[i as int]));
            assert(dst@ =~= start + led_join(lead, pieces.take(i + 1), sep));
        }
        i += 1;
    }
    assert(pieces.take(value.len() as int) =~= pieces);
}

/// Writes the pairs of an associative array as key, `kv_sep` and value, each pair after
/// what `push_sep` writes.
pub fn expand_assoc(
    dst: &mut String,
    reserved: bool,
    push_sep: &mut PushSep,
    kv_sep: &str,
    value: &[(String, String)],
)
    ensures
        final(dst)@ == old(dst)@ + led_join(
            old(push_sep).current@,
            pair_pieces(reserved, kv_sep@, pairs_view(value@)),
            old(push_sep).sep@,
        ),
        final(push_sep).sep@ == old(push_sep).sep@,
        final(push_sep).current@ == if value@.len() == 0 {
            old(push_sep).current@
        } else {
            old(push_sep).sep@
        },
{
    let ghost start = dst@;
    let ghost lead = push_sep.current@;
    let ghost sep = push_sep.sep@;
    let ghost pieces = pair_pieces(reserved, kv_sep@, pairs_view(value@));
    let mut i: usize = 0;
    assert(dst@ =~= start + led_join(lead, pieces.take(0), sep));
    while i < value.len()
        invariant
            i <= value.len(),
            pieces == pair_pieces(reserved, kv_sep@, pairs_view(value@)),
            dst@ == start + led_join(lead, pieces.take(i as int), sep),
            push_sep.sep@ == sep,
            push_sep.current@ == if i == 0 {
                lead
            } else {
                sep
            },
        decreases value.len() - i,
    {
        let ghost done = pieces.take(i as int);
        push_sep.push(dst);
        let ghost led = dst@;
        push_allow(reserved, dst, value[i].0.as_str());
        dst.append(kv_sep);
        push_allow(reserved, dst, value[i].1.as_str());
        proof {
            lemma_led_join_push(lead, done, sep, pieces[i as int]);
            assert(pieces.take(i + 1) =~= done.push(pieces[i as int]));
            assert(dst@ =~= led + pieces[i as int]);
            assert(dst@ =~= start + led_join(lead, pieces.take(i + 1), sep));
        }
        i += 1;
    }
    assert(pieces.take(value.len() as int) =~= pieces);
}

/// Writes what follows a name: `ifemp` for an empty value, else `=` and the value.
pub fn push_named_value(dst: &mut String, operator_table: &OperatorTable, value: &str)
    ensures
        final(dst)@ == old(dst)@ + named_value(operator_table@, value@),
{
    if value.is_empty() {
        dst.append(operator_table.ifemp);
    } else {
        dst.push('=');
        push_allow(operator_table.reserved, dst, value);
        assert(dst@ =~= old(dst)@ + (seq!['='] + value_text(operator_table.reserved, value@)));
    }
}

/// Writes an exploded associative array.
pub fn explode_varspec_assoc(
    dst: &mut String,
    operator_table: &OperatorTable,
    value: &[(String, String)],
)
    ensures
        final(dst)@ == old(dst)@ + assoc_exploded(operator_table@, pairs_view(value@)),
{
    proof {
        reveal_strlit("");
        reveal_strlit("=");
        assert("="@ =~= seq!['=']);
    }
    let mut push_sep = make_push_sep("", operator_table.sep);
    let ghost t = operator_table@;
    let ghost lead = Seq::<char>::empty();
    assert(""@ =~= lead);
    if !operator_table.named {
        expand_assoc(dst, operator_table.reserved, &mut push_sep, "=", value);
        let ghost pieces = pair_pieces(t.reserved, seq!['='], pairs_view(value@));
        assert(led_join(lead, pieces, t.sep) =~= joined(pieces, t.sep));
    } else {
        let ghost start = dst@;
        let ghost pieces = named_pair_pieces(t, pairs_view(value@));
        let mut i: usize = 0;
        assert(dst@ =~= start + led_join(lead, pieces.take(0), t.sep));
        while i < value.len()
            invariant
                i <= value.len(),
                t == operator_table@,
                pieces == named_pair_pieces(t, pairs_view(value@)),
                dst@ == start + led_join(lead, pieces.take(i as int), t.sep),
                push_sep.sep@ == t.sep,
                push_sep.current@ == if i == 0 {
                    lead
                } else {
                    t.sep
                },
            decreases value.len() - i,
        {
            let ghost done = pieces.take(i as int);
            push_sep.push(dst);
            let ghost led = dst@;
            push_allow_unreserved(dst, value[i].0.as_str());
            push_named_value(dst, operator_table, value[i].1.as_str());
            proof {
                lemma_led_join_push(lead, done, t.sep, pieces[i as int]);
                assert(pieces.take(i + 1) =~= done.push(pieces[i as int]));
                assert(dst@ =~= led + pieces[i as int]);
                assert(dst@ =~= start + led_join(lead, pieces.take(i + 1), t.sep));
            }
            i += 1;
        }
        assert(pieces.take(value.len() as int) =~= pieces);
        assert(led_join(lead, pieces, t.sep) =~= joined(pieces, t.sep));
    }
}

/// Writes an exploded list.
pub fn explode_varspec_list(
    dst: &mut String,
    operator_table: &OperatorTable,
    varspec: &Varspec,
    value: &[String],
)
    ensures
        final(dst)@ == old(dst)@ + list_exploded(
            operator_table@,
            varspec@,
            strings_view(value@),
        ),
{
    proof {
        reveal_strlit("");
    }
    let mut push_sep = make_push_sep("", operator_table.sep);
    let ghost t = operator_table@;
    let ghost lead = Seq::<char>::empty();
    assert(""@ =~= lead);
    if !operator_table.named {
        expand_list(dst, operator_table.reserved, &mut push_sep, value);
        let ghost pieces = list_pieces(t.reserved, strings_view(value@));
        assert(led_join(lead, pieces, t.sep) =~= joined(pieces, t.sep));
    } else {
        let ghost start = dst@;
        let ghost pieces = named_list_pieces(t, varspec@.varname, strings_view(value@));
        let mut i: usize = 0;
        assert(dst@ =~= start + led_join(lead, pieces.take(0), t.sep));
        while i < value.len()
            invariant
                i <= value.len(),
                t == operator_table@,
                pieces == named_list_pieces(t, varspec@.varname, strings_view(value@)),
                dst@ == start + led_join(lead, pieces.take(i as int), t.sep),
                push_sep.sep@ == t.sep,
                push_sep.current@ == if i == 0 {
                    lead
                } else {
                    t.sep
                },
            decreases value.len() - i,
        {
            let ghost done = pieces.take(i as int);
            push_sep.push(dst);
            let ghost led = dst@;
            dst.append(varspec.varname.as_str());
            push_named_value(dst, operator_table, value[i].as_str());
            proof {
                lemma_led_join_push(lead, done, t.sep, pieces[i as int]);
                assert(pieces.take(i + 1) =~= done.push(pieces[i as int]));
                assert(dst@ =~= led + pieces[i as int]);
                assert(dst@ =~= start + led_join(lead, pieces.take(i + 1), t.sep));
            }
            i += 1;
        }
        assert(pieces.take(value.len() as int) =~= pieces);
        assert(led_join(lead, pieces, t.sep) =~= joined(pieces, t.sep));
    }
}

/// Writes the variable's name and what follows it, where the operator writes names.
pub fn push_name(dst: &mut String, operator_table: &OperatorTable, varspec: &Varspec, empty: bool)
    ensures
        final(dst)@ == old(dst)@ + name_part(operator_table@, varspec@.varname, empty),
{
    if operator_table.named {
        dst.append(varspec.varname.as_str());
        if empty {
            dst.append(operator_table.ifemp);
        } else {
            dst.push('=');
        }
        assert(dst@ =~= old(dst)@ + name_part(operator_table@, varspec@.varname, empty));
    } else {
        assert(dst@ =~= old(dst)@ + name_part(operator_table@, varspec@.varname, empty));
    }
}

/// Writes an associative array that is not exploded.
pub fn expand_varspec_assoc(
    dst: &mut String,
    operator_table: &OperatorTable,
    varspec: &Varspec,
    value: &[(String, String)],
)
    ensures
        final(dst)@ == old(dst)@ + assoc_rendered(operator_table@, varspec@, pairs_view(value@)),
{
    proof {
        reveal_strlit("");
        reveal_strlit(",");
        assert(","@ =~= seq![',']);
        assert(""@ =~= Seq::<char>::empty());
    }
    push_name(dst, operator_table, varspec, false);
    let mut push_sep = make_push_sep("", ",");
    expand_assoc(dst, operator_table.reserved, &mut push_sep, ",", value);
    proof {
        let pieces = pair_pieces(operator_table@.reserved, seq![','], pairs_view(value@));
        assert(led_join(Seq::empty(), pieces, seq![',']) =~= joined(pieces, seq![',']));
        assert(dst@ =~= old(dst)@ + assoc_rendered(operator_table@, varspec@, pairs_view(value@)));
    }
}

/// Writes a list that is not exploded.
pub fn expand_varspec_list(
    dst: &mut String,
    operator_table: &OperatorTable,
    varspec: &Varspec,
    value: &[String],
)
    ensures
        final(dst)@ == old(dst)@ + list_rendered(operator_table@, varspec@, strings_view(value@)),
{
    proof {
        reveal_strlit("");
        reveal_strlit(",");
        assert(","@ =~= seq![',']);
        assert(""@ =~= Seq::<char>::empty());
    }
    push_name(dst, operator_table, varspec, false);
    let mut push_sep = make_push_sep("", ",");
    expand_list(dst, operator_table.reserved, &mut push_sep, value);
    proof {
        let pieces = list_pieces(operator_table@.reserved, strings_view(value@));
        assert(led_join(Seq::empty(), pieces, seq![',']) =~= joined(pieces, seq![',']));
        assert(dst@ =~= old(dst)@ + list_rendered(operator_table@, varspec@, strings_view(value@)));
    }
}

/// Writes a string, cut to the variable's prefix length where it has one.
pub fn expand_varspec_string(
    dst: &mut String,
    operator_table: &OperatorTable,
    varspec: &Varspec,
    value: &str,
)
    ensures
        final(dst)@ == old(dst)@ + string_rendered(operator_table@, varspec@, value@),
{
    let cut = match varspec.modifier_level4 {
        Some(ModifierLevel4::Prefix(size)) => {
            if size < value.unicode_len() {
                value.substring_char(0, size)
            } else {
                value
            }
        },
        _ => value,
    };
    assert(cut@ =~= truncated(value@, varspec@.modifier_level4));
    push_name(dst, operator_table, varspec, cut.is_empty());
    push_allow(operator_table.reserved, dst, cut);
    assert(dst@ =~= old(dst)@ + string_rendered(operator_table@, varspec@, value@));
}

/// Writes a value under a variable with an explode modifier.
pub fn explode_varspec(
    dst: &mut String,
    operator_table: &OperatorTable,
    push_sep: &mut PushSep,
    varspec: &Varspec,
    value: &Value,
)
    ensures
        emitted(
            explode_rendered(operator_table@, varspec@, value@),
            old(dst)@,
            old(push_sep).current@,
            old(push_sep).sep@,
            final(dst)@,
            final(push_sep).current@,
        ),
        final(push_sep).sep@ == old(push_sep).sep@,
{
    let ghost lead = push_sep.current@;
    match value {
        Value::AssociativeArray(value) => {
            if value.len() > 0 {
                push_sep.push(dst);
                explode_varspec_assoc(dst, operator_table, value.as_slice());
                assert(dst@ =~= old(dst)@ + lead + assoc_exploded(
                    operator_table@,
                    pairs_view(value@),
                ));
            }
        },
        Value::List(value) => {
            if value.len() > 0 {
                push_sep.push(dst);
                explode_varspec_list(dst, operator_table, varspec, value.as_slice());
                assert(dst@ =~= old(dst)@ + lead + list_exploded(
                    operator_table@,
                    varspec@,
                    strings_view(value@),
                ));
            }
        },
        Value::String(value) => {
            push_sep.push(dst);
            expand_varspec_string(dst, operator_table, varspec, value.as_str());
            assert(dst@ =~= old(dst)@ + lead + string_rendered(operator_table@, varspec@, value@));
        },
    }
}

/// Writes a value under a variable without an explode modifier.
pub fn expand_varspec(
    dst: &mut String,
    operator_table: &OperatorTable,
    push_sep: &mut PushSep,
    varspec: &Varspec,
    value: &Value,
)
    ensures
        emitted(
            plain_rendered(operator_table@, varspec@, value@),
            old(dst)@,
            old(push_sep).current@,
            old(push_sep).sep@,
            final(dst)@,
            final(push_sep).current@,
        ),
        final(push_sep).sep@ == old(push_sep).sep@,
{
    let ghost lead = push_sep.current@;
    match value {
        Value::AssociativeArray(value) => {
            if value.len() > 0 {
                push_sep.push(dst);
                expand_varspec_assoc(dst, operator_table, varspec, value.as_slice());
                assert(dst@ =~= old(dst)@ + lead + assoc_rendered(
                    operator_table@,
                    varspec@,
                    pairs_view(value@),
                ));
            }
        },
        Value::List(value) => {
            if value.len() > 0 {
                push_sep.push(dst);
                expand_varspec_list(dst, operator_table, varspec, value.as_slice());
                assert(dst@ =~= old(dst)@ + lead + list_rendered(
                    operator_table@,
                    varspec@,
                    strings_view(value@),
                ));
            }
        },
        Value::String(value) => {
            push_sep.push(dst);
            expand_varspec_string(dst, operator_table, varspec, value.as_str());
            assert(dst@ =~= old(dst)@ + lead + string_rendered(operator_table@, varspec@, value@));
        },
    }
}

/// Writes an expression: for each variable that is bound to something to write, what
/// stands before it and its value.
pub fn expand_expression<V: Variables>(variables: &V, dst: &mut String, expression: &Expression)
    ensures
        final(dst)@ == old(dst)@ + expression_expanded(expression@, variables.bindings()),
{
    let operator_table = get_operator_table(expression.operator);
    let mut push_sep = make_push_sep(operator_table.first, operator_table.sep);
    let ghost t = operator_table@;
    let ghost start = dst@;
    let ghost specs = expression@.variable_list;
    let ghost bindings = variables.bindings();
    let mut i: usize = 0;
    assert(specs.take(0) =~= Seq::<VarspecView>::empty());
    assert(dst@ =~= start + led_join(t.first, expression_pieces(t, specs.take(0), bindings), t.sep));
    while i < expression.variable_list.len()
        invariant
            i <= expression.variable_list.len(),
            t == operator_table@,
            t == table_of(expression.operator),
            specs == expression@.variable_list,
            bindings == variables.bindings(),
            dst@ == start + led_join(
                t.first,
                expression_pieces(t, specs.take(i as int), bindings),
                t.sep,
            ),
            push_sep.sep@ == t.sep,
            push_sep.current@ == if expression_pieces(t, specs.take(i as int), bindings).len()
                == 0 {
                t.first
            } else {
                t.sep
            },
        decreases expression.variable_list.len() - i,
    {
        let varspec = &expression.variable_list[i];
        let ghost done = expression_pieces(t, specs.take(i as int), bindings);
        proof {
            assert(specs.take(i + 1).drop_last() =~= specs.take(i as int));
            assert(specs.take(i + 1).last() == varspec@);
        }
        if let Some(value) = variables.get(varspec.varname.as_str()) {
            if let Some(ModifierLevel4::Explode) = varspec.modifier_level4 {
                explode_varspec(dst, &operator_table, &mut push_sep, varspec, value);
            } else {
                expand_varspec(dst, &operator_table, &mut push_sep, varspec, value);
            }
        }
        proof {
            match rendered(t, varspec@, lookup(bindings, varspec@.varname)) {
                None => {},
                Some(piece) => {
                    lemma_led_join_push(t.first, done, t.sep, piece);
                    assert(dst@ =~= start + led_join(t.first, done.push(piece), t.sep));
                },
            }
        }
        i += 1;
    }
    assert(specs.take(specs.len() as int) =~= specs);
}

/// Writes a literal as it stands.
pub fn expand_literal(dst: &mut String, literal: &str)
    ensures
        final(dst)@ == old(dst)@ + literal@,
{
    dst.append(literal);
}

/// The text of the items under the bindings of `variables`.
pub fn expand_items<V: Variables>(items: &[Item], variables: &V) -> (dst: String)
    ensures
        dst@ == items_expanded(items_view(items@), variables.bindings()),
{
    let mut dst = String::new();
    let ghost all = items_view(items@);
    let mut i: usize = 0;
    assert(all.take(0) =~= Seq::<ItemView>::empty());
    while i < items.len()
        invariant
            i <= items.len(),
            all == items_view(items@),
            dst@ == items_expanded(all.take(i as int), variables.bindings()),
        decreases items.len() - i,
    {
        proof {
            assert(all.take(i + 1).drop_last() =~= all.take(i as int));
            assert(all.take(i + 1).last() == items@[i as int]@);
        }
        match &items[i] {
            Item::Literal(literal) => expand_literal(&mut dst, literal.as_str()),
            Item::Expression(expression) => expand_expression(variables, &mut dst, expression),
        }
        i += 1;
    }
    assert(all.take(items.len() as int) =~= all);
    dst
}

} // verus!
