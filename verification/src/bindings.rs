//! Body-name lookup layered over the built-in table: name/code
//! assignments from loaded text kernels come first, and among them the
//! one loaded last wins.

use vstd::prelude::*;

use crate::chars::{chars_of, char_is_whitespace, char_to_uppercase, unicode_uppercase, unicode_whitespace, str_eq};
use crate::naif_ids::{bodn2c, last_name_index, normalized_name, NaifIdError};
use crate::builtin_table::builtin_table;
use crate::text_kernel::BodyBinding;

verus! {

/// Every character of `s` upper-cased (each may become several).
pub open spec fn upper_all(s: Seq<char>) -> Seq<char>
    decreases s.len(),
{
    if s.len() == 0 {
        Seq::empty()
    } else {
        upper_all(s.drop_last()) + unicode_uppercase(s.last())
    }
}

/// Left-to-right scan collapsing whitespace runs to one space and
/// dropping leading whitespace: the text so far and whether the scan is
/// at the start or just after whitespace.
pub open spec fn collapse_whitespace(s: Seq<char>) -> (Seq<char>, bool)
    decreases s.len(),
{
    if s.len() == 0 {
        (Seq::empty(), true)
    } else {
        let (out, after_ws) = collapse_whitespace(s.drop_last());
        let c = s.last();
        if unicode_whitespace(c) {
            if after_ws {
                (out, true)
            } else {
                (out.push(' '), true)
            }
        } else {
            (out.push(c), false)
        }
    }
}

/// The key a body name is matched by against kernel bindings: upper-cased,
/// whitespace runs collapsed to one space, leading and trailing
/// whitespace dropped.
pub open spec fn body_name_key(s: Seq<char>) -> Seq<char> {
    let out = collapse_whitespace(upper_all(s)).0;
    if out.len() > 0 && out.last() == ' ' {
        out.drop_last()
    } else {
        out
    }
}

/// Normalize a body name for matching against kernel bindings (see
/// [`body_name_key`]).
pub fn normalize_body_name(raw: &str) -> (r: String)
    ensures
        r@ == body_name_key(raw@),
{
    let chars = chars_of(raw);
    let mut upper: Vec<char> = Vec::new();
    let mut i: usize = 0;
    while i < chars.len()
        invariant
            chars@ == raw@,
            i <= chars@.len(),
            upper@ == upper_all(raw@.take(i as int)),
        decreases chars@.len() - i,
    {
        let up = char_to_uppercase(chars[i]);
        let ghost base = upper@;
        let mut k: usize = 0;
        while k < up.len()
            invariant
                k <= up@.len(),
                upper@ == base + up@.take(k as int),
            decreases up@.len() - k,
        {
            upper.push(up[k]);
            k += 1;
            assert(up@.take(k as int) == up@.take(k - 1).push(up@[k - 1]));
        }
        assert(up@.take(up@.len() as int) == up@);
        assert(raw@.take(i + 1).drop_last() == raw@.take(i as int));
        i += 1;
    }
    assert(raw@.take(raw@.len() as int) == raw@);
    let mut out = String::new();
    let mut last_space = true;
    let mut j: usize = 0;
    while j < upper.len()
        invariant
            upper@ == upper_all(raw@),
            j <= upper@.len(),
            (out@, last_space) == collapse_whitespace(upper@.take(j as int)),
        decreases upper@.len() - j,
    {
        let c = upper[j];
        assert(upper@.take(j + 1).drop_last() == upper@.take(j as int));
        if char_is_whitespace(c) {
            if !last_space {
                out.push(' ');
                last_space = true;
            }
        } else {
            out.push(c);
            last_space = false;
        }
        j += 1;
    }
    assert(upper@.take(upper@.len() as int) == upper@);
    crate::chars::pop_trailing_space(out)
}

/// The last binding (in load order) whose name has key `key`.
pub open spec fn last_binding(bs: Seq<(Seq<char>, i32)>, key: Seq<char>) -> Option<int>
    decreases bs.len(),
{
    if bs.len() == 0 {
        None
    } else if body_name_key(bs.last().0) == key {
        Some(bs.len() - 1)
    } else {
        last_binding(bs.drop_last(), key)
    }
}

pub open spec fn bindings_view(bs: Seq<BodyBinding>) -> Seq<(Seq<char>, i32)> {
    Seq::new(bs.len(), |i: int| bs[i]@)
}

/// What a name resolves to: the code of the last kernel binding with the
/// same key, else the built-in table's answer.
pub open spec fn resolved_code(bs: Seq<(Seq<char>, i32)>, name: Seq<char>) -> Option<i32> {
    match last_binding(bs, body_name_key(name)) {
        Some(i) => Some(bs[i].1),
        None => match last_name_index(normalized_name(name)) {
            Some(i) => Some(builtin_table()[i].1),
            None => None,
        },
    }
}

/// Resolve a body name: kernel bindings (given in load order, the
/// concatenation of every loaded text kernel's bindings) first, the one
/// loaded last winning; then the built-in table.
pub fn resolve_body_code(bindings: &[BodyBinding], name: &str) -> (r: Result<i32, NaifIdError>)
    ensures
        match resolved_code(bindings_view(bindings@), name@) {
            Some(c) => r == Ok::<i32, NaifIdError>(c),
            None => r matches Err(NaifIdError::UnknownName(s)) && s@ == name@,
        },
{
    let key = normalize_body_name(name);
    let ghost bv = bindings_view(bindings@);
    let mut n = bindings.len();
    assert(bv.take(n as int) =~= bv);
    while n > 0
        invariant
            bv == bindings_view(bindings@),
            key@ == body_name_key(name@),
            n <= bindings@.len(),
            last_binding(bv, key@) == last_binding(bv.take(n as int), key@),
        decreases n,
    {
        let b = &bindings[n - 1];
        let bk = normalize_body_name(b.name.as_str());
        assert(bv.take(n as int).drop_last() =~= bv.take(n - 1));
        assert(bv.take(n as int).last() == b@);
        if str_eq(bk.as_str(), key.as_str()) {
            return Ok(b.code);
        }
        n -= 1;
    }
    assert(bv.take(0) =~= Seq::<(Seq<char>, i32)>::empty());
    bodn2c(name)
}

/// A binding loaded after all others decides its name: resolving any
/// name with the same key gives its code.
pub proof fn lemma_last_loaded_wins(bs: Seq<(Seq<char>, i32)>, b: (Seq<char>, i32), name: Seq<char>)
    requires
        body_name_key(b.0) == body_name_key(name),
    ensures
        resolved_code(bs.push(b), name) == Some(b.1),
{
    assert(bs.push(b).last() == b);
}

/// Bindings whose key differs from a name's leave its resolution as it
/// was.
pub proof fn lemma_unrelated_binding(bs: Seq<(Seq<char>, i32)>, b: (Seq<char>, i32), name: Seq<char>)
    requires
        body_name_key(b.0) != body_name_key(name),
    ensures
        resolved_code(bs.push(b), name) == resolved_code(bs, name),
{
    assert(bs.push(b).drop_last() =~= bs);
    assert(bs.push(b).last() == b);
    lemma_last_binding_bounds(bs, body_name_key(name));
    if let Some(i) = last_binding(bs, body_name_key(name)) {
        assert(bs.push(b)[i] == bs[i]);
    }
}

proof fn lemma_last_binding_bounds(bs: Seq<(Seq<char>, i32)>, key: Seq<char>)
    ensures
        last_binding(bs, key) matches Some(i) ==> 0 <= i < bs.len() && body_name_key(bs[i].0) == key,
    decreases bs.len(),
{
    if bs.len() > 0 && body_name_key(bs.last().0) != key {
        lemma_last_binding_bounds(bs.drop_last(), key);
    }
}

/// With no kernel bindings, resolution is the built-in table's.
pub proof fn lemma_no_bindings(name: Seq<char>)
    ensures
        resolved_code(Seq::empty(), name) == (match last_name_index(normalized_name(name)) {
            Some(i) => Some(builtin_table()[i].1),
            None => None,
        }),
{
}

} // verus!
