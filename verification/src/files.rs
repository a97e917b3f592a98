//! File names of snapshots: the name under which a snapshot is saved so that
//! it replaces no file, and the cleaning of names that come from a query.

use crate::text::{
    chars_of, decimal_chars, decimal_digits, find_char, first_position, lemma_decimal_injective,
    push_chars, push_str, slice_chars, string_of,
};
use vstd::prelude::*;

verus! {

/// The part of a file name before its first dot.
pub open spec fn stem_of(name: Seq<char>) -> Seq<char> {
    name.take(first_position(name, '.'))
}

/// The `i`-th name tried for a snapshot: the stem with the extension, then the
/// stem with `_1`, `_2` and so on before the extension.
pub open spec fn candidate(stem: Seq<char>, i: nat) -> Seq<char> {
    if i == 0 {
        stem + ".r2d2"@
    } else {
        stem + "_"@ + decimal_digits(i) + ".r2d2"@
    }
}

/// The texts of a list of names.
pub open spec fn names_of(existing: Seq<String>) -> Seq<Seq<char>> {
    existing.map_values(|s: String| s@)
}

/// Whether the `i`-th name is the first one that is not among `names`.
pub open spec fn is_first_unused(stem: Seq<char>, names: Seq<Seq<char>>, i: nat) -> bool {
    &&& !names.contains(candidate(stem, i))
    &&& forall|j: nat| j < i ==> names.contains(#[trigger] candidate(stem, j))
}

/// Two names tried for the same stem are the same only if their numbers are.
pub proof fn lemma_candidates_differ(stem: Seq<char>, a: nat, b: nat)
    requires
        candidate(stem, a) == candidate(stem, b),
    ensures
        a == b,
{
    reveal_strlit(".r2d2");
    reveal_strlit("_");
    let ca = candidate(stem, a);
    let cb = candidate(stem, b);
    let n = stem.len() as int;
    if a == 0 && b != 0 {
        assert(ca[n] == '.');
        assert(cb[n] == '_');
    } else if a != 0 && b == 0 {
        assert(ca[n] == '_');
        assert(cb[n] == '.');
    } else if a != 0 && b != 0 {
        let da = decimal_digits(a);
        let db = decimal_digits(b);
        assert(ca.len() == n + 1 + da.len() + 5);
        assert(cb.len() == n + 1 + db.len() + 5);
        assert(da =~= ca.subrange(n + 1, n + 1 + da.len()));
        assert(db =~= cb.subrange(n + 1, n + 1 + db.len()));
        lemma_decimal_injective(a, b);
    }
}

/// The first `n` names tried for a stem.
pub open spec fn first_candidates(stem: Seq<char>, n: nat) -> Set<Seq<char>> {
    Set::new(|x: Seq<char>| exists|j: nat| j < n && x == candidate(stem, j))
}

/// There are `n` of them.
pub proof fn lemma_count_candidates(stem: Seq<char>, n: nat)
    ensures
        first_candidates(stem, n).finite(),
        first_candidates(stem, n).len() == n,
    decreases n,
{
    if n == 0 {
        assert(first_candidates(stem, n) =~= Set::empty());
    } else {
        let m = (n - 1) as nat;
        lemma_count_candidates(stem, m);
        let fewer = first_candidates(stem, m);
        let last = candidate(stem, m);
        assert(!fewer.contains(last)) by {
            if fewer.contains(last) {
                let j = choose|j: nat| j < m && last == candidate(stem, j);
                lemma_candidates_differ(stem, m, j);
            }
        }
        assert(first_candidates(stem, n) =~= fewer.insert(last)) by {
            assert forall|x: Seq<char>| fewer.insert(last).contains(x) implies first_candidates(
                stem,
                n,
            ).contains(x) by {
                if x == last {
                    assert(m < n && x == candidate(stem, m));
                } else {
                    let j = choose|j: nat| j < m && x == candidate(stem, j);
                    assert(j < n && x == candidate(stem, j));
                }
            }
        }
    }
}

/// Where the first `n` names tried are all among `names`, there are at least
/// `n` names.
pub proof fn lemma_candidates_fit(stem: Seq<char>, names: Seq<Seq<char>>, n: nat)
    requires
        forall|j: nat| j < n ==> names.contains(#[trigger] candidate(stem, j)),
    ensures
        n <= names.len(),
{
    lemma_count_candidates(stem, n);
    names.lemma_cardinality_of_set();
    vstd::seq_lib::seq_to_set_is_finite(names);
    assert(first_candidates(stem, n).subset_of(names.to_set())) by {
        assert forall|x: Seq<char>| first_candidates(stem, n).contains(x) implies names.to_set().contains(
            x,
        ) by {
            let j = choose|j: nat| j < n && x == candidate(stem, j);
            assert(names.contains(candidate(stem, j)));
        }
    }
    vstd::set_lib::lemma_len_subset(first_candidates(stem, n), names.to_set());
}

/// Whether `c` is a character that a file name may not hold: a path
/// separator or one of `? < > : * | "`.
pub open spec fn is_illegal(c: char) -> bool {
    c == '/' || c == '\\' || c == '?' || c == '<' || c == '>' || c == ':' || c == '*' || c == '|'
        || c == '"'
}

/// Whether a name holds no character that a file name may not hold.
pub open spec fn is_clean(name: Seq<char>) -> bool {
    forall|i: int| 0 <= i < name.len() ==> !is_illegal(#[trigger] name[i])
}

/// Whether `c` is a letter or a digit of ASCII, an underscore, a hyphen or a
/// dot.
pub open spec fn is_name_char(c: char) -> bool {
    ('a' <= c <= 'z') || ('A' <= c <= 'Z') || ('0' <= c <= '9') || c == '_' || c == '-' || c == '.'
}

/// A capital letter of ASCII as its small letter; any other character as it
/// is.
pub open spec fn lower(c: char) -> char {
    if 'A' <= c <= 'Z' {
        (c as int + 32) as char
    } else {
        c
    }
}

/// Whether a name is, in any case of its letters, one that some platforms
/// keep for a device: `con`, `prn`, `aux`, `nul`, or `com` or `lpt` with a
/// digit.
pub open spec fn is_device_name(name: Seq<char>) -> bool {
    let l = name.map_values(|c: char| lower(c));
    l == "con"@ || l == "prn"@ || l == "aux"@ || l == "nul"@ || (l.len() == 4 && (l.take(3)
        == "com"@ || l.take(3) == "lpt"@) && '0' <= l[3] <= '9')
}

/// Whether a name is plain: not empty, at most 255 characters, made of
/// letters and digits of ASCII, underscores, hyphens and dots, not ending in
/// a dot (so not of dots only), and not a device name before its first dot.
pub open spec fn is_plain(name: Seq<char>) -> bool {
    &&& 0 < name.len() <= 255
    &&& forall|i: int| 0 <= i < name.len() ==> is_name_char(#[trigger] name[i])
    &&& name.last() != '.'
    &&& !is_device_name(stem_of(name))
}

/// Whether `part` is `whole` with some of its characters taken out.
pub open spec fn is_remainder(part: Seq<char>, whole: Seq<char>) -> bool
    decreases whole.len(),
{
    if part.len() == 0 {
        true
    } else if whole.len() == 0 {
        false
    } else {
        (part.last() == whole.last() && is_remainder(part.drop_last(), whole.drop_last()))
            || is_remainder(part, whole.drop_last())
    }
}

/// `sanitize_filename::sanitize`: the name with characters taken out, among
/// them every character that a file name may not hold. What else it takes
/// out depends on the platform; on every platform a plain name comes back as
/// it is.
#[verifier::external_body]
pub(crate) fn sanitize_name(name: &str) -> (r: String)
    ensures
        is_clean(r@),
        is_remainder(r@, name@),
        is_plain(name@) ==> r@ == name@,
{
    sanitize_filename::sanitize(name)
}

/// Whether one of the names is `name`.
pub fn name_taken(existing: &Vec<String>, name: &String) -> (r: bool)
    ensures
        r == names_of(existing@).contains(name@),
{
    let mut i: usize = 0;
    while i < existing.len()
        invariant
            i <= existing@.len(),
            forall|j: int| 0 <= j < i ==> names_of(existing@)[j] != name@,
        decreases existing@.len() - i,
    {
        if existing[i] == *name {
            assert(names_of(existing@)[i as int] == name@);
            return true;
        }
        i += 1;
    }
    false
}

/// The `i`-th name tried for the stem.
fn candidate_name(stem: &Vec<char>, i: usize) -> (r: String)
    ensures
        r@ == candidate(stem@, i as nat),
{
    let mut out: Vec<char> = Vec::new();
    push_chars(&mut out, stem);
    if i > 0 {
        push_str(&mut out, "_");
        push_chars(&mut out, &decimal_chars(i as u128));
    }
    push_str(&mut out, ".r2d2");
    assert(out@ =~= candidate(stem@, i as nat));
    string_of(&out)
}

/// The name under which a snapshot called `filename` is saved beside the
/// files named in `existing`: what stands before the first dot, then
/// `.r2d2`; where a file of that name exists, the first of `_1`, `_2` and so
/// on that gives a new name goes before the extension.
pub fn unique_filename(filename: &str, existing: &Vec<String>) -> (r: String)
    ensures
        exists|i: nat| #[trigger]
            is_first_unused(stem_of(filename@), names_of(existing@), i) && r@ == candidate(
                stem_of(filename@),
                i,
            ),
{
    let chars = chars_of(filename);
    let dot = find_char(&chars, '.');
    let stem = slice_chars(&chars, 0, dot);
    assert(stem@ =~= stem_of(filename@));
    let mut postfix: usize = 0;
    let mut name = candidate_name(&stem, 0);
    while name_taken(existing, &name)
        invariant
            postfix <= existing@.len(),
            name@ == candidate(stem@, postfix as nat),
            forall|j: nat| j < postfix ==> names_of(existing@).contains(#[trigger] candidate(stem@, j)),
        decreases existing@.len() - postfix,
    {
        proof {
            assert forall|j: nat| j < postfix + 1 implies names_of(existing@).contains(
                #[trigger] candidate(stem@, j),
            ) by {
                if j == postfix {
                    assert(candidate(stem@, j) == name@);
                }
            }
            lemma_candidates_fit(stem@, names_of(existing@), (postfix + 1) as nat);
            assert(names_of(existing@).len() == existing@.len());
            assert(existing@.len() == existing.len());
            assert(postfix + 1 <= existing.len());
        }
        postfix += 1;
        name = candidate_name(&stem, postfix);
    }
    assert(is_first_unused(stem@, names_of(existing@), postfix as nat));
    name
}

} // verus!
