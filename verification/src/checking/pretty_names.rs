//! Display names for type variables in pretty-printed types.
//!
//! Every name handed out is distinct from every name handed out or assigned
//! before: a base name is used as it is the first time, and later requests
//! for it get the first free numeric suffix.
use vstd::prelude::*;

use super::types::Name;
use crate::text::push_char;
use crate::text::table::{
    keys_unique, lemma_table_domain, lemma_table_push, lemma_table_update, lemma_table_value,
    table_map,
};

verus! {

/// The character of the decimal digit `digit`.
pub open spec fn digit_char(digit: nat) -> char {
    (48 + digit) as char
}

/// The decimal representation of `value`, without leading zeros.
pub open spec fn decimal(value: nat) -> Seq<char>
    decreases value,
{
    if value < 10 {
        seq![digit_char(value)]
    } else {
        decimal(value / 10).push(digit_char(value % 10))
    }
}

/// Appends the decimal representation of `value` to `text`.
pub fn push_decimal(text: &mut String, value: u64)
    ensures
        final(text)@ == old(text)@ + decimal(value as nat),
    decreases value,
{
    if value >= 10 {
        push_decimal(text, value / 10);
    }
    let digit = (value % 10) as u8;
    let character = (48u8 + digit) as char;
    assert(character == digit_char((value % 10) as nat)) by {
        assert((48u8 + digit) as char == (48 + digit) as char);
    }
    push_char(text, character);
    proof {
        if value >= 10 {
            assert(old(text)@ + decimal(value as nat) =~= (old(text)@ + decimal((value / 10) as nat)).push(
                character,
            ));
        } else {
            assert(old(text)@ + decimal(value as nat) =~= old(text)@.push(character));
        }
    }
}

/// `base` followed by `suffix` in decimal.
pub open spec fn candidate(base: Seq<char>, suffix: nat) -> Seq<char> {
    base + decimal(suffix)
}

/// The first suffix from `from` on whose candidate is not reserved in
/// `reserved`; `u32::MAX` when there is none.
pub open spec fn first_free(reserved: Map<Seq<char>, u32>, base: Seq<char>, from: u32) -> u32
    decreases u32::MAX - from,
{
    if !reserved.contains_key(candidate(base, from as nat)) || from == u32::MAX {
        from
    } else {
        first_free(reserved, base, (from + 1) as u32)
    }
}

/// Some suffix from `from` on gives a candidate that is not reserved.
pub open spec fn has_free(reserved: Map<Seq<char>, u32>, base: Seq<char>, from: u32) -> bool {
    exists|suffix: u32| from <= suffix && !#[trigger] reserved.contains_key(candidate(base, suffix as nat))
}

pub proof fn lemma_first_free(reserved: Map<Seq<char>, u32>, base: Seq<char>, from: u32)
    requires
        has_free(reserved, base, from),
    ensures
        from <= first_free(reserved, base, from),
        !reserved.contains_key(candidate(base, first_free(reserved, base, from) as nat)),
        forall|suffix: u32|
            from <= suffix < first_free(reserved, base, from) ==> #[trigger] reserved.contains_key(
                candidate(base, suffix as nat),
            ),
    decreases u32::MAX - from,
{
    if reserved.contains_key(candidate(base, from as nat)) {
        if from == u32::MAX {
            let suffix = choose|suffix: u32|
                from <= suffix && !#[trigger] reserved.contains_key(candidate(base, suffix as nat));
            assert(suffix == from);
        } else {
            let suffix = choose|suffix: u32|
                from <= suffix && !#[trigger] reserved.contains_key(candidate(base, suffix as nat));
            assert(suffix != from);
            assert(has_free(reserved, base, (from + 1) as u32));
            lemma_first_free(reserved, base, (from + 1) as u32);
        }
    }
}

/// The state of a name allocator: the display name given to each type
/// variable, the names reserved so far with the next suffix to try for
/// each, and the base name for variables without a name of their own.
pub struct PrettyNamesModel {
    pub display: Map<Name, Seq<char>>,
    pub next_suffix: Map<Seq<char>, u32>,
    pub default_name: Seq<char>,
}

impl PrettyNamesModel {
    /// A name can be allocated for `base`: it is new, or one of its
    /// suffixed forms is.
    pub open spec fn can_allocate(self, base: Seq<char>) -> bool {
        !self.next_suffix.contains_key(base) || has_free(self.next_suffix, base, self.next_suffix[base])
    }

    /// Allocating a display name for `base`, and the name allocated.
    pub open spec fn allocated(self, base: Seq<char>) -> (PrettyNamesModel, Seq<char>) {
        if !self.next_suffix.contains_key(base) {
            (PrettyNamesModel { next_suffix: self.next_suffix.insert(base, 1), ..self }, base)
        } else {
            let suffix = first_free(self.next_suffix, base, self.next_suffix[base]);
            let display = candidate(base, suffix as nat);
            let reserved = self.next_suffix.insert(display, 1);
            let reserved = if suffix < u32::MAX {
                reserved.insert(base, (suffix + 1) as u32)
            } else {
                reserved
            };
            (PrettyNamesModel { next_suffix: reserved, ..self }, display)
        }
    }

    /// The base name for `name`: its own, or the default.
    pub open spec fn base_for(self, own: Option<Seq<char>>) -> Seq<char> {
        match own {
            Some(own) => own,
            None => self.default_name,
        }
    }
}

/// A decimal representation is never empty.
proof fn lemma_decimal_not_empty(value: nat)
    ensures
        decimal(value).len() >= 1,
    decreases value,
{
    if value >= 10 {
        lemma_decimal_not_empty(value / 10);
    }
}

/// Decimal representations are at least two digits long from ten on.
proof fn lemma_decimal_short(value: nat)
    ensures
        (decimal(value).len() == 1) == (value < 10),
        decimal(value).len() >= 1,
    decreases value,
{
    if value >= 10 {
        lemma_decimal_short(value / 10);
    }
}

/// Different numbers have different decimal representations.
pub proof fn lemma_decimal_injective(a: nat, b: nat)
    requires
        decimal(a) == decimal(b),
    ensures
        a == b,
    decreases a,
{
    lemma_decimal_short(a);
    lemma_decimal_short(b);
    if a >= 10 {
        let da = decimal(a);
        let db = decimal(b);
        assert(da.last() == digit_char(a % 10));
        assert(db.last() == digit_char(b % 10));
        assert(da.drop_last() =~= decimal(a / 10));
        assert(db.drop_last() =~= decimal(b / 10));
        lemma_decimal_injective(a / 10, b / 10);
        assert((48 + a % 10) as char == (48 + b % 10) as char);
    } else {
        assert(decimal(a)[0] == digit_char(a));
        assert(decimal(b)[0] == digit_char(b));
    }
}

/// An allocated display name was not reserved before, and is reserved
/// afterwards; every name reserved before stays reserved.
pub proof fn law_allocated_name_is_fresh(model: PrettyNamesModel, base: Seq<char>)
    requires
        model.can_allocate(base),
    ensures
        ({
            let (after, display) = model.allocated(base);
            &&& !model.next_suffix.contains_key(display)
            &&& after.next_suffix.contains_key(display)
            &&& forall|reserved: Seq<char>|
                #[trigger] model.next_suffix.contains_key(reserved) ==> after.next_suffix.contains_key(
                    reserved,
                )
            &&& after.display == model.display
        }),
{
    if model.next_suffix.contains_key(base) {
        lemma_first_free(model.next_suffix, base, model.next_suffix[base]);
    }
}

/// Every reserved name's next suffix is at least one.
pub open spec fn suffixes_positive(model: PrettyNamesModel) -> bool {
    forall|name: Seq<char>| #[trigger] model.next_suffix.contains_key(name) ==> model.next_suffix[name] >= 1
}

/// Allocating display names for `bases`, one after another: the state
/// afterwards and the names allocated, in order.
pub open spec fn allocated_all(model: PrettyNamesModel, bases: Seq<Seq<char>>) -> (PrettyNamesModel, Seq<Seq<char>>)
    decreases bases.len(),
{
    if bases.len() == 0 {
        (model, Seq::empty())
    } else {
        let (before, names) = allocated_all(model, bases.drop_last());
        let (after, name) = before.allocated(bases.last());
        (after, names.push(name))
    }
}

/// Each allocation of the sequence can be made when its turn comes.
pub open spec fn can_allocate_all(model: PrettyNamesModel, bases: Seq<Seq<char>>) -> bool
    decreases bases.len(),
{
    if bases.len() == 0 {
        true
    } else {
        can_allocate_all(model, bases.drop_last()) && allocated_all(model, bases.drop_last()).0.can_allocate(
            bases.last(),
        )
    }
}

/// Over any sequence of allocations, the names handed out are pairwise
/// distinct and none was reserved at the start. Each is its base, or its
/// base followed by a decimal number from one on; it is the base itself
/// exactly when the base was neither reserved at the start nor among the
/// earlier bases or names. Afterwards the reserved names are those of the
/// start and the names handed out.
pub proof fn law_allocated_names_distinct(model: PrettyNamesModel, bases: Seq<Seq<char>>)
    requires
        suffixes_positive(model),
        can_allocate_all(model, bases),
    ensures
        ({
            let (after, names) = allocated_all(model, bases);
            &&& names.len() == bases.len()
            &&& suffixes_positive(after)
            &&& after.display == model.display
            &&& after.next_suffix.dom() == model.next_suffix.dom() + names.to_set()
            &&& forall|i: int| 0 <= i < bases.len() ==> after.next_suffix.contains_key(#[trigger] bases[i])
            &&& forall|i: int, j: int| 0 <= i < j < names.len() ==> #[trigger] names[i] != #[trigger] names[j]
            &&& forall|i: int| 0 <= i < names.len() ==> !model.next_suffix.contains_key(#[trigger] names[i])
            &&& forall|i: int|
                0 <= i < names.len() ==> #[trigger] names[i] == bases[i] || exists|k: nat|
                    1 <= k && names[i] == #[trigger] candidate(bases[i], k)
            &&& forall|i: int|
                0 <= i < names.len() ==> ((#[trigger] names[i] == bases[i]) == !(model.next_suffix.contains_key(bases[i])
                    || bases.take(i).contains(bases[i]) || names.take(i).contains(bases[i])))
        }),
    decreases bases.len(),
{
    if bases.len() > 0 {
        let prefix = bases.drop_last();
        let base = bases.last();
        let n = prefix.len() as int;
        law_allocated_names_distinct(model, prefix);
        let (before, earlier) = allocated_all(model, prefix);
        let (after, name) = before.allocated(base);
        let names = earlier.push(name);
        assert(allocated_all(model, bases) == (after, names));
        assert(before.can_allocate(base));
        assert forall|j: int| 0 <= j < n implies before.next_suffix.contains_key(#[trigger] prefix[j]) by {
            assert(prefix[j] == prefix[j]);
        }
        let reserved = before.next_suffix.contains_key(base);
        if reserved {
            let start = before.next_suffix[base];
            lemma_first_free(before.next_suffix, base, start);
            let suffix = first_free(before.next_suffix, base, start);
            lemma_decimal_not_empty(suffix as nat);
            assert(name == candidate(base, suffix as nat));
            assert(name.len() > base.len());
            assert(name != base);
            assert(!before.next_suffix.contains_key(name));
        } else {
            assert(name == base);
        }
        assert(!before.next_suffix.contains_key(name));
        assert(after.next_suffix.dom() =~= model.next_suffix.dom() + names.to_set()) by {
            assert forall|x: Seq<char>| names.to_set().contains(x) implies after.next_suffix.contains_key(x) by {
                let i = choose|i: int| 0 <= i < names.len() && names[i] == x;
                if i < n {
                    assert(earlier[i] == x);
                    assert(earlier.to_set().contains(x));
                }
            }
            assert forall|x: Seq<char>| after.next_suffix.contains_key(x) implies model.next_suffix.contains_key(x)
                || names.to_set().contains(x) by {
                if x != name && before.next_suffix.contains_key(x) && !model.next_suffix.contains_key(x) {
                    assert(earlier.to_set().contains(x));
                    let i = choose|i: int| 0 <= i < earlier.len() && earlier[i] == x;
                    assert(names[i] == x);
                }
                if x == name {
                    assert(names[n] == x);
                }
            }
        }
        assert forall|i: int, j: int| 0 <= i < j < names.len() implies #[trigger] names[i] != #[trigger] names[j] by {
            if j == n {
                assert(earlier.to_set().contains(earlier[i]));
            }
        }
        assert forall|i: int| 0 <= i < names.len() implies ((#[trigger] names[i] == bases[i]) == !(
            model.next_suffix.contains_key(bases[i]) || bases.take(i).contains(bases[i]) || names.take(
                i,
            ).contains(bases[i]))) by {
            if i < n {
                assert(bases.take(i) =~= prefix.take(i));
                assert(names.take(i) =~= earlier.take(i));
                assert(names[i] == earlier[i] && bases[i] == prefix[i]);
            } else {
                assert(bases.take(i) =~= prefix);
                assert(names.take(i) =~= earlier);
                assert(bases[i] == base);
                if before.next_suffix.contains_key(base) && !model.next_suffix.contains_key(base) {
                    assert(earlier.to_set().contains(base));
                }
                if prefix.contains(base) {
                    let j = choose|j: int| 0 <= j < n && prefix[j] == base;
                    assert(before.next_suffix.contains_key(prefix[j]));
                }
                if earlier.contains(base) {
                    assert(earlier.to_set().contains(base));
                }
            }
        }
        assert forall|i: int| 0 <= i < names.len() implies #[trigger] names[i] == bases[i] || exists|k: nat|
            1 <= k && names[i] == #[trigger] candidate(bases[i], k) by {
            if i < n {
                assert(names[i] == earlier[i] && bases[i] == prefix[i]);
                if earlier[i] != prefix[i] {
                    let k = choose|k: nat| 1 <= k && earlier[i] == #[trigger] candidate(prefix[i], k);
                    assert(names[i] == candidate(bases[i], k));
                }
            } else if reserved {
                let start = before.next_suffix[base];
                let suffix = first_free(before.next_suffix, base, start);
                assert(names[i] == candidate(bases[i], suffix as nat));
            }
        }
        assert forall|i: int| 0 <= i < bases.len() implies after.next_suffix.contains_key(#[trigger] bases[i]) by {
            if i < n {
                assert(bases[i] == prefix[i]);
                assert(before.next_suffix.contains_key(prefix[i]));
            }
        }
        assert forall|x: Seq<char>| #[trigger] after.next_suffix.contains_key(x) implies after.next_suffix[x] >= 1 by {
            assert(before.next_suffix.contains_key(x) ==> before.next_suffix[x] >= 1);
        }
    }
}

/// Hands out display names; see the module documentation.
///
/// The display name of each variable and the next suffix of each reserved
/// name are kept in association lists, so a lookup is a linear search;
/// `wf` keeps each variable and each reserved name in its list at most once.
pub struct PrettyNames {
    display_by_name: Vec<(Name, String)>,
    next_suffix: Vec<(String, u32)>,
    default_name: String,
}

spec fn display_entries(entries: Seq<(Name, String)>) -> Seq<(Name, Seq<char>)> {
    entries.map_values(|entry: (Name, String)| (entry.0, entry.1@))
}

spec fn suffix_entries(entries: Seq<(String, u32)>) -> Seq<(Seq<char>, u32)> {
    entries.map_values(|entry: (String, u32)| (entry.0@, entry.1))
}

impl View for PrettyNames {
    type V = PrettyNamesModel;

    closed spec fn view(&self) -> PrettyNamesModel {
        PrettyNamesModel {
            display: table_map(display_entries(self.display_by_name@)),
            next_suffix: table_map(suffix_entries(self.next_suffix@)),
            default_name: self.default_name@,
        }
    }
}

impl Default for PrettyNames {
    fn default() -> (names: PrettyNames)
        ensures
            names.wf(),
            names@.display == Map::<Name, Seq<char>>::empty(),
            names@.next_suffix == Map::<Seq<char>, u32>::empty(),
            names@.default_name == seq!['t'],
    {
        let mut default_name = String::new();
        push_char(&mut default_name, 't');
        let names = PrettyNames { display_by_name: Vec::new(), next_suffix: Vec::new(), default_name };
        assert(display_entries(names.display_by_name@) =~= Seq::<(Name, Seq<char>)>::empty());
        assert(suffix_entries(names.next_suffix@) =~= Seq::<(Seq<char>, u32)>::empty());
        assert(default_name@ =~= seq!['t']);
        names
    }
}

/// The position of `key` among the reserved names.
fn find_suffix(entries: &Vec<(String, u32)>, key: &String) -> (position: Option<usize>)
    ensures
        match position {
            Some(k) => k < entries@.len() && entries@[k as int].0@ == key@,
            None => forall|k: int| 0 <= k < entries@.len() ==> (#[trigger] entries@[k]).0@ != key@,
        },
{
    let mut k: usize = 0;
    while k < entries.len()
        invariant
            k <= entries@.len(),
            forall|j: int| 0 <= j < k ==> (#[trigger] entries@[j]).0@ != key@,
        decreases entries@.len() - k,
    {
        if entries[k].0 == *key {
            return Some(k);
        }
        k = k + 1;
    }
    None
}

/// The position of `name` among the display names.
fn find_display(entries: &Vec<(Name, String)>, name: Name) -> (position: Option<usize>)
    ensures
        match position {
            Some(k) => k < entries@.len() && entries@[k as int].0 == name,
            None => forall|k: int| 0 <= k < entries@.len() ==> (#[trigger] entries@[k]).0 != name,
        },
{
    let mut k: usize = 0;
    while k < entries.len()
        invariant
            k <= entries@.len(),
            forall|j: int| 0 <= j < k ==> (#[trigger] entries@[j]).0 != name,
        decreases entries@.len() - k,
    {
        if entries[k].0 == name {
            return Some(k);
        }
        k = k + 1;
    }
    None
}

proof fn lemma_suffix_lookup(entries: Seq<(String, u32)>, key: Seq<char>, position: Option<usize>)
    requires
        keys_unique(suffix_entries(entries)),
        match position {
            Some(k) => k < entries.len() && entries[k as int].0@ == key,
            None => forall|k: int| 0 <= k < entries.len() ==> (#[trigger] entries[k]).0@ != key,
        },
    ensures
        table_map(suffix_entries(entries)).contains_key(key) == (position is Some),
        position matches Some(k) ==> table_map(suffix_entries(entries))[key] == entries[k as int].1,
{
    let view = suffix_entries(entries);
    lemma_table_domain(view, key);
    match position {
        Some(k) => {
            assert(view[k as int].0 == key);
            lemma_table_value(view, k as int);
        },
        None => {
            if exists|i: int| 0 <= i < view.len() && #[trigger] view[i].0 == key {
                let i = choose|i: int| 0 <= i < view.len() && #[trigger] view[i].0 == key;
                assert(entries[i].0@ != key);
            }
        },
    }
}

/// Records `value` as the next suffix of `key`.
fn set_suffix(entries: &mut Vec<(String, u32)>, key: String, value: u32)
    requires
        keys_unique(suffix_entries(old(entries)@)),
        value >= 1,
        forall|k: int| 0 <= k < old(entries)@.len() ==> (#[trigger] old(entries)@[k]).1 >= 1,
    ensures
        keys_unique(suffix_entries(final(entries)@)),
        forall|k: int| 0 <= k < final(entries)@.len() ==> (#[trigger] final(entries)@[k]).1 >= 1,
        table_map(suffix_entries(final(entries)@)) == table_map(suffix_entries(old(entries)@)).insert(
            key@,
            value,
        ),
{
    let position = find_suffix(entries, &key);
    proof {
        lemma_suffix_lookup(entries@, key@, position);
    }
    let ghost before = suffix_entries(entries@);
    match position {
        Some(k) => {
            entries.set(k, (key, value));
            proof {
                lemma_table_update(before, k as int, value);
                assert(suffix_entries(entries@) =~= before.update(k as int, (before[k as int].0, value)));
            }
        },
        None => {
            let ghost key_view = key@;
            entries.push((key, value));
            proof {
                lemma_table_push(before, key_view, value);
                assert(suffix_entries(entries@) =~= before.push((key_view, value)));
            }
        },
    }
}

/// Records `display` as the display name of `name`.
fn set_display(entries: &mut Vec<(Name, String)>, name: Name, display: String)
    requires
        keys_unique(display_entries(old(entries)@)),
    ensures
        keys_unique(display_entries(final(entries)@)),
        table_map(display_entries(final(entries)@)) == table_map(display_entries(old(entries)@)).insert(
            name,
            display@,
        ),
{
    let position = find_display(entries, name);
    let ghost before = display_entries(entries@);
    let ghost display_view = display@;
    match position {
        Some(k) => {
            entries.set(k, (name, display));
            proof {
                lemma_table_update(before, k as int, display_view);
                assert(display_entries(entries@) =~= before.update(k as int, (before[k as int].0, display_view)));
            }
        },
        None => {
            proof {
                lemma_table_domain(before, name);
                if exists|i: int| 0 <= i < before.len() && #[trigger] before[i].0 == name {
                    let i = choose|i: int| 0 <= i < before.len() && #[trigger] before[i].0 == name;
                    assert(entries@[i].0 != name);
                }
            }
            entries.push((name, display));
            proof {
                lemma_table_push(before, name, display_view);
                assert(display_entries(entries@) =~= before.push((name, display_view)));
            }
        },
    }
}

/// Clones a string.
fn copy_string(text: &String) -> (copy: String)
    ensures
        copy@ == text@,
{
    text.clone()
}

impl PrettyNames {
    /// No type variable and no reserved name occurs twice in the tables.
    pub closed spec fn wf(&self) -> bool {
        &&& keys_unique(display_entries(self.display_by_name@))
        &&& keys_unique(suffix_entries(self.next_suffix@))
        &&& forall|k: int| 0 <= k < self.next_suffix@.len() ==> (#[trigger] self.next_suffix@[k]).1 >= 1
    }

    pub fn new() -> (names: PrettyNames)
        ensures
            names.wf(),
            names@.display == Map::<Name, Seq<char>>::empty(),
            names@.next_suffix == Map::<Seq<char>, u32>::empty(),
            names@.default_name == seq!['t'],
    {
        PrettyNames::default()
    }

    /// Forgets every display name and reservation; the default base name
    /// stays.
    pub fn reset(&mut self)
        ensures
            final(self).wf(),
            final(self)@.display == Map::<Name, Seq<char>>::empty(),
            final(self)@.next_suffix == Map::<Seq<char>, u32>::empty(),
            final(self)@.default_name == old(self)@.default_name,
    {
        self.display_by_name.clear();
        self.next_suffix.clear();
        assert(display_entries(self.display_by_name@) =~= Seq::<(Name, Seq<char>)>::empty());
        assert(suffix_entries(self.next_suffix@) =~= Seq::<(Seq<char>, u32)>::empty());
    }

    /// The base name for type variables that have no name of their own.
    pub fn set_default_name(&mut self, default_name: &str)
        requires
            old(self).wf(),
        ensures
            final(self).wf(),
            final(self)@ == (PrettyNamesModel { default_name: default_name@, ..old(self)@ }),
    {
        self.default_name = default_name.to_owned();
    }

    /// Makes `suffix` the next suffix tried for `base`.
    pub fn set_next_suffix(&mut self, base: &str, suffix: u32)
        requires
            old(self).wf(),
            suffix >= 1,
        ensures
            final(self).wf(),
            final(self)@ == (PrettyNamesModel {
                next_suffix: old(self)@.next_suffix.insert(base@, suffix),
                ..old(self)@
            }),
    {
        set_suffix(&mut self.next_suffix, base.to_owned(), suffix);
    }

    /// A display name for `base` that was not handed out or assigned before.
    pub fn allocate_display_name(&mut self, base: String) -> (display: String)
        requires
            old(self).wf(),
            old(self)@.can_allocate(base@),
        ensures
            final(self).wf(),
            (final(self)@, display@) == old(self)@.allocated(base@),
    {
        let ghost model = self@;
        let position = find_suffix(&self.next_suffix, &base);
        proof {
            lemma_suffix_lookup(self.next_suffix@, base@, position);
        }
        let start = match position {
            None => {
                set_suffix(&mut self.next_suffix, copy_string(&base), 1);
                return base;
            },
            Some(k) => self.next_suffix[k].1,
        };
        proof {
            lemma_first_free(model.next_suffix, base@, start);
            let k = position->0;
            assert(self.next_suffix@[k as int].1 >= 1);
        }
        let mut suffix = start;
        loop
            invariant
                self.wf(),
                self@ == model,
                model == old(self)@,
                model.next_suffix.contains_key(base@),
                start == model.next_suffix[base@],
                start >= 1,
                has_free(model.next_suffix, base@, start),
                start <= suffix <= first_free(model.next_suffix, base@, start),
            decreases first_free(model.next_suffix, base@, start) - suffix,
        {
            let mut display = copy_string(&base);
            push_decimal(&mut display, suffix as u64);
            let found = find_suffix(&self.next_suffix, &display);
            proof {
                lemma_suffix_lookup(self.next_suffix@, display@, found);
                lemma_first_free(model.next_suffix, base@, start);
            }
            if found.is_none() {
                proof {
                    if suffix < first_free(model.next_suffix, base@, start) {
                        assert(model.next_suffix.contains_key(candidate(base@, suffix as nat)));
                    }
                    assert(suffix == first_free(model.next_suffix, base@, start));
                    assert(display@ == candidate(base@, suffix as nat));
                }
                let ghost display_view = display@;
                set_suffix(&mut self.next_suffix, copy_string(&display), 1);
                assert(self@.next_suffix == model.next_suffix.insert(display_view, 1));
                assert(self@.display == model.display);
                assert(self@.default_name == model.default_name);
                if let Some(next_suffix) = try_next_suffix(suffix) {
                    set_suffix(&mut self.next_suffix, base, next_suffix);
                }
                assert(self@.display == model.display);
                assert(self@.default_name == model.default_name);
                return display;
            }
            suffix = suffix + 1;
        }
    }

    /// The display name of `name`, allocating one from its own base name
    /// (`own`), or else from the default base name, the first time.
    pub fn display_name(&mut self, own: Option<&str>, name: Name) -> (display: String)
        requires
            old(self).wf(),
            old(self)@.display.contains_key(name) || old(self)@.can_allocate(
                old(self)@.base_for(
                    match own {
                        Some(own) => Some(own@),
                        None => None,
                    },
                ),
            ),
        ensures
            final(self).wf(),
            old(self)@.display.contains_key(name) ==> final(self)@ == old(self)@ && display@
                == old(self)@.display[name],
            !old(self)@.display.contains_key(name) ==> {
                let base = old(self)@.base_for(
                    match own {
                        Some(own) => Some(own@),
                        None => None,
                    },
                );
                let (allocated, chosen) = old(self)@.allocated(base);
                &&& display@ == chosen
                &&& final(self)@ == (PrettyNamesModel {
                    display: allocated.display.insert(name, chosen),
                    ..allocated
                })
            },
    {
        let position = find_display(&self.display_by_name, name);
        proof {
            let view = display_entries(self.display_by_name@);
            lemma_table_domain(view, name);
            match position {
                Some(k) => {
                    assert(view[k as int].0 == name);
                    lemma_table_value(view, k as int);
                },
                None => {
                    if exists|i: int| 0 <= i < view.len() && #[trigger] view[i].0 == name {
                        let i = choose|i: int| 0 <= i < view.len() && #[trigger] view[i].0 == name;
                        assert(self.display_by_name@[i].0 != name);
                    }
                },
            }
        }
        if let Some(k) = position {
            return copy_string(&self.display_by_name[k].1);
        }
        let base = match own {
            Some(own) => own.to_owned(),
            None => copy_string(&self.default_name),
        };
        let display = self.allocate_display_name(base);
        set_display(&mut self.display_by_name, name, copy_string(&display));
        display
    }

    /// Gives `name` the display name `display`, reserving it.
    pub fn assign_display_name(&mut self, name: Name, display: String)
        requires
            old(self).wf(),
        ensures
            final(self).wf(),
            final(self)@ == (PrettyNamesModel {
                display: old(self)@.display.insert(name, display@),
                next_suffix: if old(self)@.next_suffix.contains_key(display@) {
                    old(self)@.next_suffix
                } else {
                    old(self)@.next_suffix.insert(display@, 1)
                },
                default_name: old(self)@.default_name,
            }),
    {
        let found = find_suffix(&self.next_suffix, &display);
        proof {
            lemma_suffix_lookup(self.next_suffix@, display@, found);
        }
        if found.is_none() {
            set_suffix(&mut self.next_suffix, copy_string(&display), 1);
        }
        set_display(&mut self.display_by_name, name, display);
    }
}

/// The next suffix after `suffix`, unless `suffix` is the largest.
pub fn try_next_suffix(suffix: u32) -> (next: Option<u32>)
    requires
        suffix >= 1,
    ensures
        next == (if suffix < u32::MAX {
            Some((suffix + 1) as u32)
        } else {
            None
        }),
{
    suffix.checked_add(1)
}

} // verus!
