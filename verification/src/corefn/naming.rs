//! The names the compiler makes up for CoreFn: dictionaries, constructor
//! fields, instances without a name, dictionary parameters and fresh
//! identifiers.
use vstd::prelude::*;

use super::model::Identifier;
use crate::checking::evidence::EvidenceBinderId;
use crate::checking::pretty_names::{decimal, lemma_decimal_injective, push_decimal};
use crate::ids::TermItemId;
use crate::text::push_char;

verus! {

/// Appends the characters of `suffix` to `text`.
fn push_all(text: &mut String, suffix: &str)
    ensures
        final(text)@ == old(text)@ + suffix@,
{
    let characters = crate::text::chars_of(suffix);
    let mut k: usize = 0;
    while k < characters.len()
        invariant
            k <= characters@.len(),
            characters@ == suffix@,
            text@ == old(text)@ + characters@.take(k as int),
        decreases characters@.len() - k,
    {
        push_char(text, characters[k]);
        k = k + 1;
        assert(text@ =~= old(text)@ + characters@.take(k as int));
    }
    assert(characters@.take(k as int) =~= characters@);
}

/// The name of the dictionary type of the class `class_name`.
pub fn class_dictionary_name(class_name: &str) -> (name: String)
    ensures
        name@ == class_name@ + seq!['$', 'D', 'i', 'c', 't'],
{
    let mut name = String::new();
    push_all(&mut name, class_name);
    push_char(&mut name, '$');
    push_char(&mut name, 'D');
    push_char(&mut name, 'i');
    push_char(&mut name, 'c');
    push_char(&mut name, 't');
    assert(name@ =~= class_name@ + seq!['$', 'D', 'i', 'c', 't']);
    name
}

/// The name of an instance declared without one.
pub fn generated_term_name(term_id: TermItemId) -> (name: String)
    ensures
        name@ == seq!['$', 'i', 'n', 's', 't', 'a', 'n', 'c', 'e'] + decimal(term_id.0 as nat),
{
    let mut name = String::new();
    push_char(&mut name, '$');
    push_char(&mut name, 'i');
    push_char(&mut name, 'n');
    push_char(&mut name, 's');
    push_char(&mut name, 't');
    push_char(&mut name, 'a');
    push_char(&mut name, 'n');
    push_char(&mut name, 'c');
    push_char(&mut name, 'e');
    assert(name@ =~= seq!['$', 'i', 'n', 's', 't', 'a', 'n', 'c', 'e']);
    push_decimal(&mut name, term_id.0 as u64);
    name
}

/// The name of the dictionary parameter `binder`.
pub fn evidence_binder_name(binder: EvidenceBinderId) -> (name: Identifier)
    ensures
        name.0@ == seq!['$', 'd', 'i', 'c', 't'] + decimal(binder.0 as nat),
{
    let mut name = String::new();
    push_char(&mut name, '$');
    push_char(&mut name, 'd');
    push_char(&mut name, 'i');
    push_char(&mut name, 'c');
    push_char(&mut name, 't');
    assert(name@ =~= seq!['$', 'd', 'i', 'c', 't']);
    push_decimal(&mut name, binder.0 as u64);
    Identifier(name)
}

/// The name of field `index` of a data constructor.
pub open spec fn field_name(index: nat) -> Seq<char> {
    seq!['v', 'a', 'l', 'u', 'e'] + decimal(index)
}

/// The field names of a data constructor with `arity` arguments:
/// `value0`, `value1`, and so on.
pub fn constructor_fields(arity: usize) -> (fields: Vec<Identifier>)
    ensures
        fields@.len() == arity,
        forall|i: int| 0 <= i < arity ==> #[trigger] fields@[i].0@ == field_name(i as nat),
{
    let mut fields: Vec<Identifier> = Vec::new();
    let mut index: usize = 0;
    while index < arity
        invariant
            index <= arity,
            fields@.len() == index,
            forall|i: int| 0 <= i < index ==> #[trigger] fields@[i].0@ == field_name(i as nat),
        decreases arity - index,
    {
        let mut name = String::new();
        push_char(&mut name, 'v');
        push_char(&mut name, 'a');
        push_char(&mut name, 'l');
        push_char(&mut name, 'u');
        push_char(&mut name, 'e');
        assert(name@ =~= seq!['v', 'a', 'l', 'u', 'e']);
        push_decimal(&mut name, index as u64);
        fields.push(Identifier(name));
        index = index + 1;
    }
    fields
}

/// A fresh identifier for `purpose`: `$`, the purpose and the number of
/// identifiers generated before it.
pub fn fresh_identifier(generated: &mut u32, purpose: &str) -> (identifier: Identifier)
    requires
        *old(generated) < u32::MAX,
    ensures
        identifier.0@ == seq!['$'] + purpose@ + decimal(*old(generated) as nat),
        *final(generated) == *old(generated) + 1,
{
    let mut name = String::new();
    push_char(&mut name, '$');
    push_all(&mut name, purpose);
    push_decimal(&mut name, *generated as u64);
    *generated = *generated + 1;
    Identifier(name)
}

/// Fresh identifiers for one purpose are distinct, and so are the field
/// names of a constructor.
pub proof fn law_generated_names_distinct(purpose: Seq<char>, a: nat, b: nat)
    requires
        a != b,
    ensures
        seq!['$'] + purpose + decimal(a) != seq!['$'] + purpose + decimal(b),
        field_name(a) != field_name(b),
{
    let prefix = seq!['$'] + purpose;
    if prefix + decimal(a) == prefix + decimal(b) {
        assert(decimal(a) =~= (prefix + decimal(a)).skip(prefix.len() as int));
        assert(decimal(b) =~= (prefix + decimal(b)).skip(prefix.len() as int));
        lemma_decimal_injective(a, b);
    }
    if field_name(a) == field_name(b) {
        assert(decimal(a) =~= field_name(a).skip(5));
        assert(decimal(b) =~= field_name(b).skip(5));
        lemma_decimal_injective(a, b);
    }
}

} // verus!
