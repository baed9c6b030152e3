//! RFC 6570 URI templates: parsing a template into items and expanding the
//! items against variable bindings into an escaped string.

pub mod encoding;
pub mod expand;
pub mod item;
pub mod laws;
pub mod parse;

use crate::expand::{expand_items, items_expanded};
use crate::item::{items_view, Item, ItemView};
use crate::parse::{item_wf, lemma_template_parsed_wf, parse_template, template_parsed};
use vstd::hash_map::StringHashMap;
use vstd::prelude::*;

verus! {

/// What a variable is bound to.
#[derive(Clone, Debug, PartialEq, Eq)]
pub enum Value {
    /// Pairs of key and value, in order; a key may occur more than once.
    AssociativeArray(Vec<(String, String)>),
    List(Vec<String>),
    String(String),
}

/// A `Value` with its texts as sequences of characters.
pub enum ValueView {
    AssociativeArray(Seq<(Seq<char>, Seq<char>)>),
    List(Seq<Seq<char>>),
    String(Seq<char>),
}

/// The texts of a list, in order.
pub open spec fn strings_view(list: Seq<String>) -> Seq<Seq<char>> {
    Seq::new(list.len(), |i: int| list[i]@)
}

/// The texts of the pairs of an associative array, in order.
pub open spec fn pairs_view(pairs: Seq<(String, String)>) -> Seq<(Seq<char>, Seq<char>)> {
    Seq::new(pairs.len(), |i: int| (pairs[i].0@, pairs[i].1@))
}

impl View for Value {
    type V = ValueView;

    open spec fn view(&self) -> ValueView {
        match self {
            Value::AssociativeArray(pairs) => ValueView::AssociativeArray(pairs_view(pairs@)),
            Value::List(list) => ValueView::List(strings_view(list@)),
            Value::String(text) => ValueView::String(text@),
        }
    }
}

/// A source of bindings: it answers what a name is bound to.
pub trait Variables {
    /// The bindings, by name.
    spec fn bindings(&self) -> Map<Seq<char>, ValueView>;

    /// The value bound to `k`, if there is one.
    fn get(&self, k: &str) -> (r: Option<&Value>)
        ensures
            match r {
                Some(value) => self.bindings().contains_key(k@) && self.bindings()[k@] == value@,
                None => !self.bindings().contains_key(k@),
            },
    ;
}

/// The texts of a slice of string slices, in order.
pub open spec fn strs_view(list: Seq<&str>) -> Seq<Seq<char>> {
    Seq::new(list.len(), |i: int| list[i]@)
}

/// The texts of a slice of pairs of string slices, in order.
pub open spec fn str_pairs_view(pairs: Seq<(&str, &str)>) -> Seq<(Seq<char>, Seq<char>)> {
    Seq::new(pairs.len(), |i: int| (pairs[i].0@, pairs[i].1@))
}

impl Value {
    /// An associative array of the given pairs, in their order.
    pub fn from_assoc(iter: &[(&str, &str)]) -> (r: Value)
        ensures
            r@ == ValueView::AssociativeArray(str_pairs_view(iter@)),
    {
        let mut pairs: Vec<(String, String)> = Vec::new();
        let mut i: usize = 0;
        while i < iter.len()
            invariant
                i <= iter.len(),
                pairs_view(pairs@) == str_pairs_view(iter@.take(i as int)),
            decreases iter.len() - i,
        {
            let ghost before = pairs_view(pairs@);
            let key = iter[i].0.to_owned();
            let value = iter[i].1.to_owned();
            pairs.push((key, value));
            assert(pairs_view(pairs@) =~= before.push((iter@[i as int].0@, iter@[i as int].1@)));
            i += 1;
            assert(pairs_view(pairs@) =~= str_pairs_view(iter@.take(i as int)));
        }
        assert(iter@.take(iter.len() as int) =~= iter@);
        Value::AssociativeArray(pairs)
    }

    /// A list of the given members, in their order.
    pub fn from_list(iter: &[&str]) -> (r: Value)
        ensures
            r@ == ValueView::List(strs_view(iter@)),
    {
        let mut list: Vec<String> = Vec::new();
        let mut i: usize = 0;
        while i < iter.len()
            invariant
                i <= iter.len(),
                strings_view(list@) == strs_view(iter@.take(i as int)),
            decreases iter.len() - i,
        {
            let ghost before = strings_view(list@);
            let member: &str = iter[i];
            list.push(member.to_owned());
            assert(strings_view(list@) =~= before.push(iter@[i as int]@));
            i += 1;
            assert(strings_view(list@) =~= strs_view(iter@.take(i as int)));
        }
        assert(iter@.take(iter.len() as int) =~= iter@);
        Value::List(list)
    }

    /// A string value.
    pub fn from_string(s: &str) -> (r: Value)
        ensures
            r@ == ValueView::String(s@),
    {
        Value::String(s.to_owned())
    }
}

/// The bindings of a list of pairs: each name with the value of the first pair that has it.
pub open spec fn first_bindings(pairs: Seq<(String, Value)>) -> Map<Seq<char>, ValueView>
    decreases pairs.len(),
{
    if pairs.len() == 0 {
        Map::empty()
    } else {
        let before = first_bindings(pairs.drop_last());
        if before.contains_key(pairs.last().0@) {
            before
        } else {
            before.insert(pairs.last().0@, pairs.last().1@)
        }
    }
}

/// A name that the first `n` pairs bind keeps its value when further pairs follow.
pub proof fn lemma_first_bindings_prefix(pairs: Seq<(String, Value)>, n: int, k: Seq<char>)
    requires
        0 <= n <= pairs.len(),
        first_bindings(pairs.take(n)).contains_key(k),
    ensures
        first_bindings(pairs).contains_key(k),
        first_bindings(pairs)[k] == first_bindings(pairs.take(n))[k],
    decreases pairs.len() - n,
{
    if n == pairs.len() {
        assert(pairs.take(n) =~= pairs);
    } else {
        assert(pairs.drop_last().take(n) =~= pairs.take(n));
        lemma_first_bindings_prefix(pairs.drop_last(), n, k);
    }
}

impl Variables for Vec<(String, Value)> {
    open spec fn bindings(&self) -> Map<Seq<char>, ValueView> {
        first_bindings(self@)
    }

    fn get(&self, k: &str) -> (r: Option<&Value>) {
        let name = k.to_owned();
        let mut i: usize = 0;
        assert(self@.take(0) =~= Seq::<(String, Value)>::empty());
        while i < self.len()
            invariant
                i <= self.len(),
                name@ == k@,
                !first_bindings(self@.take(i as int)).contains_key(k@),
            decreases self.len() - i,
        {
            proof {
                assert(self@.take(i + 1).drop_last() =~= self@.take(i as int));
                assert(self@.take(i + 1).last() == self@[i as int]);
            }
            if self[i].0 == name {
                proof {
                    lemma_first_bindings_prefix(self@, i + 1, k@);
                }
                return Some(&self[i].1);
            }
            i += 1;
        }
        assert(self@.take(self.len() as int) =~= self@);
        None
    }
}

/// The values of a map, each by its view.
pub open spec fn value_views(m: Map<Seq<char>, Value>) -> Map<Seq<char>, ValueView> {
    Map::new(|k: Seq<char>| m.contains_key(k), |k: Seq<char>| m[k]@)
}

impl Variables for StringHashMap<Value> {
    open spec fn bindings(&self) -> Map<Seq<char>, ValueView> {
        value_views(self@)
    }

    fn get(&self, k: &str) -> (r: Option<&Value>) {
        StringHashMap::get(self, k)
    }
}

/// A parsed template. It can be expanded any number of times.
#[derive(Clone, Debug, PartialEq, Eq)]
pub struct UriTemplate(Vec<Item>);

impl View for UriTemplate {
    type V = Seq<ItemView>;

    closed spec fn view(&self) -> Seq<ItemView> {
        items_view(self.0@)
    }
}

/// A template together with the bindings to expand it with.
pub struct Expander<'a> {
    uri_template: &'a UriTemplate,
    variables: StringHashMap<Value>,
}

impl UriTemplate {
    /// The items of `template`. Every text is a template.
    pub fn parse(template: &str) -> (r: Self)
        ensures
            r@ == template_parsed(template@),
            forall|i: int| 0 <= i < r@.len() ==> item_wf(#[trigger] r@[i]),
    {
        proof {
            lemma_template_parsed_wf(template@);
        }
        let items = parse_template(template);
        UriTemplate(items)
    }

    /// The text of the template under the bindings of `variables`.
    pub fn expand<V: Variables>(&self, variables: &V) -> (r: String)
        ensures
            r@ == items_expanded(self@, variables.bindings()),
    {
        expand_items(self.0.as_slice(), variables)
    }

    /// An expander for this template, without bindings.
    pub fn expander(&self) -> (r: Expander<'_>)
        ensures
            r.template() == self@,
            r.bindings() == Map::<Seq<char>, ValueView>::empty(),
    {
        let r = Expander { uri_template: self, variables: StringHashMap::new() };
        assert(r.bindings() =~= Map::<Seq<char>, ValueView>::empty());
        r
    }
}

impl<'a> Expander<'a> {
    /// The items of the template.
    pub closed spec fn template(&self) -> Seq<ItemView> {
        self.uri_template@
    }

    /// The bindings set so far.
    pub closed spec fn bindings(&self) -> Map<Seq<char>, ValueView> {
        value_views(self.variables@)
    }

    /// The text of the template under the bindings set so far.
    pub fn expand(&self) -> (r: String)
        ensures
            r@ == items_expanded(self.template(), self.bindings()),
    {
        self.uri_template.expand(&self.variables)
    }

    /// Binds `k1` to an associative array, in place of what it was bound to.
    pub fn set_assoc(&mut self, k1: &str, iter: &[(&str, &str)]) -> (r: &mut Self)
        ensures
            r.template() == old(self).template(),
            r.bindings() == old(self).bindings().insert(
                k1@,
                ValueView::AssociativeArray(str_pairs_view(iter@)),
            ),
            *final(self) == *final(r),
    {
        let v1 = Value::from_assoc(iter);
        self.variables.insert(k1.to_owned(), v1);
        assert(self.bindings() =~= old(self).bindings().insert(k1@, v1@));
        self
    }

    /// Binds `k` to a list, in place of what it was bound to.
    pub fn set_list(&mut self, k: &str, iter: &[&str]) -> (r: &mut Self)
        ensures
            r.template() == old(self).template(),
            r.bindings() == old(self).bindings().insert(k@, ValueView::List(strs_view(iter@))),
            *final(self) == *final(r),
    {
        let v = Value::from_list(iter);
        self.variables.insert(k.to_owned(), v);
        assert(self.bindings() =~= old(self).bindings().insert(k@, v@));
        self
    }

    /// Binds `k` to a string, in place of what it was bound to.
    pub fn set_string(&mut self, k: &str, v: &str) -> (r: &mut Self)
        ensures
            r.template() == old(self).template(),
            r.bindings() == old(self).bindings().insert(k@, ValueView::String(v@)),
            *final(self) == *final(r),
    {
        let v = Value::from_string(v);
        self.variables.insert(k.to_owned(), v);
        assert(self.bindings() =~= old(self).bindings().insert(k@, v@));
        self
    }
}

} // verus!
