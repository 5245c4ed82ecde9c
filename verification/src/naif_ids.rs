//! NAIF built-in body name <-> integer ID lookup.
//!
//! Names are matched case-insensitively: whitespace runs and underscores
//! collapse to a single space, leading and trailing separators are
//! dropped, and letters are upper-cased. Kernel-supplied bindings (from
//! text kernels) are not consulted here; see
//! [`crate::bindings::resolve_body_code`] for the layered lookup.

use vstd::prelude::*;

use crate::builtin_table::{builtin_entries, builtin_table};
use crate::chars::{
    char_is_whitespace, char_to_uppercase, pop_trailing_space, str_eq, unicode_uppercase,
    unicode_whitespace,
};

verus! {

/// Errors of the built-in table lookups.
#[derive(Debug)]
pub enum NaifIdError {
    UnknownName(String),
    UnknownCode(i32),
}

/// A separator for name matching: Unicode whitespace or `_`.
pub open spec fn is_name_separator(c: char) -> bool {
    unicode_whitespace(c) || c == '_'
}

/// Left-to-right scan of `s`: the text emitted so far and whether the
/// scan is at the start or just after a separator.
pub open spec fn collapse_name(s: Seq<char>) -> (Seq<char>, bool)
    decreases s.len(),
{
    if s.len() == 0 {
        (Seq::empty(), true)
    } else {
        let (out, after_sep) = collapse_name(s.drop_last());
        let c = s.last();
        if is_name_separator(c) {
            if after_sep {
                (out, true)
            } else {
                (out.push(' '), true)
            }
        } else {
            (out + unicode_uppercase(c), false)
        }
    }
}

/// The normalized form of a body name: separator runs collapsed to one
/// space, leading separators dropped, letters upper-cased, one trailing
/// space removed.
pub open spec fn normalized_name(s: Seq<char>) -> Seq<char> {
    let out = collapse_name(s).0;
    if out.len() > 0 && out.last() == ' ' {
        out.drop_last()
    } else {
        out
    }
}

/// Index `i` of the table is a name match for `key` (already normalized).
pub open spec fn name_matches_at(key: Seq<char>, i: int) -> bool {
    0 <= i < builtin_table().len() && normalized_name(builtin_table()[i].0@) == key
}

/// The last table index whose name normalizes to `key`, if any.
pub open spec fn last_name_index(key: Seq<char>) -> Option<int> {
    if exists|i: int| name_matches_at(key, i) {
        Some(choose|i: int| name_matches_at(key, i) && forall|j: int| name_matches_at(key, j) ==> j <= i)
    } else {
        None
    }
}

/// Index `i` of the table carries `code`.
pub open spec fn code_at(code: i32, i: int) -> bool {
    0 <= i < builtin_table().len() && builtin_table()[i].1 == code
}

/// Normalize a body name for matching (see [`normalized_name`]).
pub fn normalize_name(name: &str) -> (r: String)
    ensures
        r@ == normalized_name(name@),
{
    let mut out = String::new();
    let mut prev_space = true;
    for ch in it: name.chars()
        invariant
            it.seq() == name@,
            (out@, prev_space) == collapse_name(name@.take(it.index() as int)),
    {
        assert(name@.take(it.index() + 1).drop_last() == name@.take(it.index() as int));
        let ws = char_is_whitespace(ch);
        if ws || ch == '_' {
            if !prev_space {
                out.push(' ');
                prev_space = true;
            }
        } else {
            let up = char_to_uppercase(ch);
            let ghost base = out@;
            let mut k: usize = 0;
            while k < up.len()
                invariant
                    k <= up.len(),
                    out@ == base + up@.take(k as int),
                decreases up.len() - k,
            {
                out.push(up[k]);
                k += 1;
                assert(up@.take(k as int) == up@.take(k - 1).push(up@[k - 1]));
            }
            assert(up@.take(up.len() as int) == up@);
            prev_space = false;
        }
    }
    assert(name@.take(name@.len() as int) == name@);
    pop_trailing_space(out)
}

/// Look up a body NAIF ID by name against the built-in table only.
/// The name is normalized (see [`normalized_name`]); when several table
/// names normalize alike, the last one in table order decides.
pub fn bodn2c(name: &str) -> (r: Result<i32, NaifIdError>)
    ensures
        match last_name_index(normalized_name(name@)) {
            Some(i) => r == Ok::<i32, NaifIdError>(builtin_table()[i].1),
            None => r matches Err(NaifIdError::UnknownName(s)) && s@ == name@,
        },
{
    let key = normalize_name(name);
    let table = builtin_entries();
    let mut i = table.len();
    while i > 0
        invariant
            table@ == builtin_table(),
            key@ == normalized_name(name@),
            i <= table.len(),
            forall|j: int| i <= j < table.len() ==> !name_matches_at(key@, j),
        decreases i,
    {
        i -= 1;
        let candidate = normalize_name(table[i].0);
        if str_eq(candidate.as_str(), key.as_str()) {
            assert(name_matches_at(key@, i as int));
            let ghost w = choose|k: int| name_matches_at(key@, k) && forall|j: int| name_matches_at(key@, j) ==> j <= k;
            assert(forall|j: int| name_matches_at(key@, j) ==> j <= i);
            assert(w == i as int);
            return Ok(table[i].1);
        }
    }
    assert(!exists|j: int| name_matches_at(key@, j));
    Err(NaifIdError::UnknownName(name.to_owned()))
}

/// Reverse lookup: NAIF ID to the canonical name, the first table entry
/// that carries the code.
pub fn bodc2n(code: i32) -> (r: Result<&'static str, NaifIdError>)
    ensures
        (exists|i: int| code_at(code, i)) ==> (exists|i: int|
            code_at(code, i) && (forall|j: int| 0 <= j < i ==> !code_at(code, j)) && r == Ok::<
                &'static str,
                NaifIdError,
            >(builtin_table()[i].0)),
        !(exists|i: int| code_at(code, i)) ==> r == Err::<&'static str, NaifIdError>(
            NaifIdError::UnknownCode(code),
        ),
{
    let table = builtin_entries();
    let mut i: usize = 0;
    while i < table.len()
        invariant
            table@ == builtin_table(),
            i <= table.len(),
            forall|j: int| 0 <= j < i ==> !code_at(code, j),
        decreases table.len() - i,
    {
        if table[i].1 == code {
            assert(code_at(code, i as int));
            return Ok(table[i].0);
        }
        i += 1;
    }
    Err(NaifIdError::UnknownCode(code))
}

/// Number of entries in the built-in table.
pub fn builtin_len() -> (r: usize)
    ensures
        r == builtin_table().len(),
{
    builtin_entries().len()
}

} // verus!
