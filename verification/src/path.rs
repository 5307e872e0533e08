//! Paths: their components, and names compared without regard to the case
//! of ASCII letters.

use vstd::prelude::*;
use vstd::string::StrSliceExecFns;

verus! {

/// The character that separates the components of a path.
pub const SEPARATOR: char = '/';

/// `c` with an upper-case ASCII letter turned into its lower-case one.
pub open spec fn lower_char(c: char) -> char {
    if 'A' <= c && c <= 'Z' {
        ((c as u32) + 32) as char
    } else {
        c
    }
}

/// `c` with a lower-case ASCII letter turned into its upper-case one.
pub open spec fn upper_char(c: char) -> char {
    if 'a' <= c && c <= 'z' {
        ((c as u32) - 32) as char
    } else {
        c
    }
}

/// `s` with every upper-case ASCII letter turned into its lower-case one.
pub open spec fn lowered(s: Seq<char>) -> Seq<char> {
    s.map_values(|c: char| lower_char(c))
}

/// `s` with every lower-case ASCII letter turned into its upper-case one.
pub open spec fn uppered(s: Seq<char>) -> Seq<char> {
    s.map_values(|c: char| upper_char(c))
}

/// Whether two names are the same but for the case of ASCII letters.
pub open spec fn same_name(a: Seq<char>, b: Seq<char>) -> bool {
    lowered(a) == lowered(b)
}

/// `str::eq_ignore_ascii_case`: whether the two strings are equal once the
/// ASCII letters of both are in lower case.
#[verifier::external_body]
pub(crate) fn eq_ignore_ascii_case(a: &str, b: &str) -> (r: bool)
    ensures
        r == same_name(a@, b@),
{
    a.eq_ignore_ascii_case(b)
}

/// The components of the part of `path` that starts at `start`, where the
/// scan stands at `i` and no separator lies between the two.
pub open spec fn components_from(path: Seq<char>, start: int, i: int) -> Seq<Seq<char>>
    decreases path.len() - i,
{
    if i < 0 || i >= path.len() {
        if 0 <= start < path.len() {
            seq![path.subrange(start, path.len() as int)]
        } else {
            Seq::empty()
        }
    } else if path[i] == SEPARATOR {
        if start < i {
            seq![path.subrange(start, i)] + components_from(path, i + 1, i + 1)
        } else {
            components_from(path, i + 1, i + 1)
        }
    } else {
        components_from(path, start, i + 1)
    }
}

/// The components of `path`: the stretches between separators that are not
/// empty, in order.
pub open spec fn components(path: Seq<char>) -> Seq<Seq<char>> {
    components_from(path, 0, 0)
}

/// The strings of `parts` as sequences of characters.
pub open spec fn part_views(parts: Seq<&str>) -> Seq<Seq<char>> {
    parts.map_values(|p: &str| p@)
}

/// Splits `path` at its separators and leaves out the empty components.
pub fn split_path<'a>(path: &'a str) -> (parts: Vec<&'a str>)
    ensures
        part_views(parts@) == components(path@),
{
    let n = path.unicode_len();
    let mut parts: Vec<&'a str> = Vec::new();
    let mut start: usize = 0;
    let mut i: usize = 0;
    assert(part_views(parts@) =~= Seq::empty());
    while i < n
        invariant
            n == path@.len(),
            start <= i <= n,
            components(path@) == part_views(parts@) + components_from(
                path@,
                start as int,
                i as int,
            ),
        decreases n - i,
    {
        let c = path.get_char(i);
        if c == SEPARATOR {
            if start < i {
                let ghost before = part_views(parts@);
                let piece = path.substring_char(start, i);
                parts.push(piece);
                proof {
                    assert(part_views(parts@) =~= before.push(piece@));
                    assert(before + (seq![piece@] + components_from(path@, i + 1, i + 1))
                        =~= before.push(piece@) + components_from(path@, i + 1, i + 1));
                }
            }
            start = i + 1;
        }
        i += 1;
    }
    if start < n {
        let ghost before = part_views(parts@);
        let piece = path.substring_char(start, n);
        parts.push(piece);
        proof {
            assert(part_views(parts@) =~= before.push(piece@));
            assert(before + seq![piece@] =~= before.push(piece@));
        }
    } else {
        assert(part_views(parts@) + Seq::<Seq<char>>::empty() =~= part_views(parts@));
    }
    parts
}

/// Changing the case of a letter makes no separator and unmakes none, and
/// the lower-case form of a character is that of both its forms.
pub proof fn lemma_lower_char(c: char)
    ensures
        (lower_char(c) == SEPARATOR) == (c == SEPARATOR),
        lower_char(lower_char(c)) == lower_char(c),
        lower_char(upper_char(c)) == lower_char(c),
{
}

/// A name is the same, but for case, as its lower-case and its upper-case form.
pub proof fn lemma_case_variants(s: Seq<char>)
    ensures
        same_name(s, lowered(s)),
        same_name(s, uppered(s)),
{
    assert forall|i: int| 0 <= i < s.len() implies lowered(lowered(s))[i] == lowered(s)[i]
        && lowered(uppered(s))[i] == lowered(s)[i] by {
        lemma_lower_char(s[i]);
    }
    assert(lowered(lowered(s)) =~= lowered(s));
    assert(lowered(uppered(s)) =~= lowered(s));
}

/// Names that are the same but for case have the same length and, place by
/// place, characters that are the same but for case.
pub proof fn lemma_same_name(a: Seq<char>, b: Seq<char>)
    requires
        same_name(a, b),
    ensures
        a.len() == b.len(),
        forall|i: int| 0 <= i < a.len() ==> lower_char(#[trigger] a[i]) == lower_char(b[i]),
{
    assert(lowered(a).len() == a.len());
    assert(lowered(b).len() == b.len());
    assert forall|i: int| 0 <= i < a.len() implies lower_char(#[trigger] a[i]) == lower_char(
        b[i],
    ) by {
        assert(lowered(a)[i] == lower_char(a[i]));
        assert(lowered(b)[i] == lower_char(b[i]));
    }
}

/// Stretches of the same places of two names that are the same but for
/// case are the same but for case.
pub proof fn lemma_same_name_subrange(a: Seq<char>, b: Seq<char>, from: int, to: int)
    requires
        same_name(a, b),
        0 <= from <= to <= a.len(),
    ensures
        same_name(a.subrange(from, to), b.subrange(from, to)),
{
    lemma_same_name(a, b);
    assert forall|i: int| 0 <= i < to - from implies lowered(a.subrange(from, to))[i] == lowered(
        b.subrange(from, to),
    )[i] by {
        assert(a.subrange(from, to)[i] == a[from + i]);
        assert(b.subrange(from, to)[i] == b[from + i]);
    }
    assert(lowered(a.subrange(from, to)) =~= lowered(b.subrange(from, to)));
}

/// Paths that are the same but for case have as many components, and these
/// are the same but for case, one by one.
pub proof fn lemma_components_from_case(p: Seq<char>, q: Seq<char>, start: int, i: int)
    requires
        same_name(p, q),
        0 <= start <= i <= p.len(),
    ensures
        components_from(p, start, i).len() == components_from(q, start, i).len(),
        forall|k: int|
            0 <= k < components_from(p, start, i).len() ==> same_name(
                #[trigger] components_from(p, start, i)[k],
                components_from(q, start, i)[k],
            ),
    decreases p.len() - i,
{
    lemma_same_name(p, q);
    if i >= p.len() {
        if start < p.len() {
            lemma_same_name_subrange(p, q, start, p.len() as int);
        }
    } else {
        lemma_lower_char(p[i]);
        lemma_lower_char(q[i]);
        if p[i] == SEPARATOR {
            lemma_components_from_case(p, q, i + 1, i + 1);
            if start < i {
                lemma_same_name_subrange(p, q, start, i);
                let tail_p = components_from(p, i + 1, i + 1);
                let tail_q = components_from(q, i + 1, i + 1);
                let all_p = components_from(p, start, i);
                let all_q = components_from(q, start, i);
                assert forall|k: int| 0 <= k < all_p.len() implies same_name(
                    #[trigger] all_p[k],
                    all_q[k],
                ) by {
                    if k > 0 {
                        assert(all_p[k] == tail_p[k - 1]);
                        assert(all_q[k] == tail_q[k - 1]);
                    }
                }
            }
        } else {
            lemma_components_from_case(p, q, start, i + 1);
        }
    }
}

} // verus!
