//! Number literals as the compiler writes them into CoreFn.
use vstd::prelude::*;

use crate::text::{chars_of, push_char};

verus! {

pub open spec fn not_separator() -> spec_fn(char) -> bool {
    |character: char| character != '_'
}

/// The digits of a number literal: the literal without its `_` separators.
pub fn number_without_separators(value: &str) -> (digits: String)
    ensures
        digits@ == value@.filter(not_separator()),
{
    let characters = chars_of(value);
    let mut digits = String::new();
    let mut k: usize = 0;
    proof {
        reveal(Seq::filter);
        assert(characters@.take(0) =~= Seq::<char>::empty());
    }
    while k < characters.len()
        invariant
            k <= characters@.len(),
            characters@ == value@,
            digits@ == characters@.take(k as int).filter(not_separator()),
        decreases characters@.len() - k,
    {
        let character = characters[k];
        proof {
            assert(characters@.take(k as int + 1) =~= characters@.take(k as int).push(character));
            characters@.take(k as int).lemma_filter_push(character, not_separator());
        }
        if character != '_' {
            push_char(&mut digits, character);
        }
        k = k + 1;
    }
    proof {
        assert(characters@.take(k as int) =~= characters@);
    }
    digits
}

} // verus!
