//! Extension keys: the case-folded suffix after the last dot of a name.
//!
//! A dot at the very start of a name does not open an extension (hidden
//! files such as `.profile` count as extensionless), and a name whose last
//! dot is final has the empty extension.  Entries without an extension fall
//! into the empty-string group.

use vstd::prelude::*;
use crate::lex::{lower, lower_char, lower_char_exec};
use crate::text::string_push;

verus! {

/// The raw characters after the last dot of `name`, or `None` when no dot
/// stands at an index above zero.
pub open spec fn ext_search(name: Seq<char>) -> Option<Seq<char>>
    decreases name.len(),
{
    if name.len() <= 1 {
        None
    } else if name.last() == '.' {
        Some(Seq::empty())
    } else {
        match ext_search(name.drop_last()) {
            Some(e) => Some(e.push(name.last())),
            None => None,
        }
    }
}

/// The bucket grouping key of a name: its case-folded extension, or the
/// empty string when it has none.
pub open spec fn ext_key(name: Seq<char>) -> Seq<char> {
    match ext_search(name) {
        Some(e) => lower(e),
        None => Seq::empty(),
    }
}

proof fn lemma_ext_search_with_dot(s: Seq<char>, p: int)
    requires
        1 <= p < s.len(),
        s[p] == '.',
        forall|k: int| p < k < s.len() ==> s[k] != '.',
    ensures
        ext_search(s) == Some(s.skip(p + 1)),
    decreases s.len(),
{
    if p == s.len() - 1 {
        assert(s.skip(p + 1) =~= Seq::<char>::empty());
    } else {
        assert(s.last() != '.');
        lemma_ext_search_with_dot(s.drop_last(), p);
        assert(s.drop_last().skip(p + 1).push(s.last()) =~= s.skip(p + 1));
    }
}

proof fn lemma_ext_search_no_dot(s: Seq<char>)
    requires
        forall|k: int| 1 <= k < s.len() ==> s[k] != '.',
    ensures
        ext_search(s) is None,
    decreases s.len(),
{
    if s.len() > 1 {
        assert(s.last() != '.');
        lemma_ext_search_no_dot(s.drop_last());
    }
}

/// Computes the extension grouping key of a name.
pub fn extension_key(name: &str) -> (r: String)
    ensures
        r@ == ext_key(name@),
{
    let len = name.unicode_len();
    let mut i: usize = len;
    let mut dot: usize = 0;
    let mut found = false;
    while i > 1 && !found
        invariant
            i <= len,
            len == name@.len(),
            !found ==> forall|k: int| i <= k < len ==> name@[k] != '.',
            found ==> 1 <= dot < len && name@[dot as int] == '.' && forall|k: int|
                dot < k < len ==> name@[k] != '.',
        decreases (if found {
            0int
        } else {
            1int
        }) + i,
    {
        if name.get_char(i - 1) == '.' {
            found = true;
            dot = i - 1;
        } else {
            i = i - 1;
        }
    }
    if !found {
        proof {
            lemma_ext_search_no_dot(name@);
        }
        return String::new();
    }
    proof {
        lemma_ext_search_with_dot(name@, dot as int);
    }
    let mut r = String::new();
    let mut j: usize = dot + 1;
    proof {
        assert(name@.subrange(dot + 1, dot + 1) =~= Seq::<char>::empty());
    }
    while j < len
        invariant
            dot + 1 <= j <= len,
            len == name@.len(),
            r@ == lower(name@.subrange(dot + 1, j as int)),
        decreases len - j,
    {
        proof {
            assert(name@.subrange(dot + 1, j + 1).drop_last() =~= name@.subrange(
                dot + 1,
                j as int,
            ));
            assert(name@.subrange(dot + 1, j + 1).last() == name@[j as int]);
        }
        let c = lower_char_exec(name.get_char(j));
        string_push(&mut r, c);
        j = j + 1;
    }
    proof {
        assert(name@.subrange(dot + 1, len as int) =~= name@.skip(dot + 1));
    }
    r
}

} // verus!
