//! What holds of texts, character by character.
use crate::text::{
    decimal, first_occurrence, is_first_occurrence, join, lemma_decimal, lemma_first_occurrence,
    lemma_join_first, lemma_join_split, less, occurs_at, split, splitn,
};
use vstd::prelude::*;

verus! {

broadcast use vstd::seq::group_seq_axioms;

/// The number that a text of decimal digits stands for.
pub open spec fn number_of(s: Seq<char>) -> int
    decreases s.len(),
{
    if s.len() == 0 {
        0
    } else {
        10 * number_of(s.drop_last()) + (s.last() as int - '0' as int)
    }
}

/// A number written in decimal reads as the number, and has no zero in front.
pub proof fn lemma_decimal_reads(n: nat)
    ensures
        number_of(decimal(n)) == n,
        n > 0 ==> decimal(n)[0] != '0',
        n == 0 ==> decimal(n) == seq!['0'],
    decreases n,
{
    lemma_decimal(n);
    let s = decimal(n);
    if n < 10 {
        assert(s.drop_last() =~= Seq::<char>::empty());
        assert(number_of(s.drop_last()) == 0);
        assert(s[0] as int == '0' as int + n);
    } else {
        lemma_decimal_reads(n / 10);
        lemma_decimal(n / 10);
        assert(s.drop_last() =~= decimal(n / 10));
        assert(s.last() as int == '0' as int + n % 10);
        assert(s[0] == decimal(n / 10)[0]);
    }
}

/// Whether two texts agree in their first `i` characters.
pub open spec fn agree_up_to(a: Seq<char>, b: Seq<char>, i: int) -> bool {
    &&& 0 <= i <= a.len()
    &&& i <= b.len()
    &&& forall|j: int| 0 <= j < i ==> #[trigger] a[j] == b[j]
}

/// A text stands before another exactly where it is a shorter beginning of it, or
/// has the smaller character at the first place where they differ.
pub proof fn lemma_less(a: Seq<char>, b: Seq<char>)
    ensures
        less(a, b) <==> exists|i: int| #[trigger]
            agree_up_to(a, b, i) && i < b.len() && (i == a.len() || (a[i] as int) < (b[i] as int)),
    decreases a.len(),
{
    if b.len() == 0 {
    } else if a.len() == 0 {
        assert(agree_up_to(a, b, 0));
    } else if a[0] != b[0] {
        if less(a, b) {
            assert(agree_up_to(a, b, 0));
        }
        if exists|i: int| #[trigger]
            agree_up_to(a, b, i) && i < b.len() && (i == a.len() || (a[i] as int) < (b[i] as int)) {
            let i = choose|i: int| #[trigger]
                agree_up_to(a, b, i) && i < b.len() && (i == a.len() || (a[i] as int) < (
                b[i] as int));
            if i > 0 {
                assert(a[0] == b[0]);
            }
        }
    } else {
        let (x, y) = (a.skip(1), b.skip(1));
        lemma_less(x, y);
        if less(x, y) {
            let i = choose|i: int| #[trigger]
                agree_up_to(x, y, i) && i < y.len() && (i == x.len() || (x[i] as int) < (
                y[i] as int));
            assert forall|j: int| 0 <= j < i + 1 implies #[trigger] a[j] == b[j] by {
                if j > 0 {
                    assert(x[j - 1] == y[j - 1]);
                }
            }
            assert(agree_up_to(a, b, i + 1));
        }
        if exists|i: int| #[trigger]
            agree_up_to(a, b, i) && i < b.len() && (i == a.len() || (a[i] as int) < (b[i] as int)) {
            let i = choose|i: int| #[trigger]
                agree_up_to(a, b, i) && i < b.len() && (i == a.len() || (a[i] as int) < (
                b[i] as int));
            assert(i > 0);
            assert forall|j: int| 0 <= j < i - 1 implies #[trigger] x[j] == y[j] by {
                assert(a[j + 1] == b[j + 1]);
            }
            assert(agree_up_to(x, y, i - 1));
        }
    }
}

/// Whether two colons stand at place `j`.
pub open spec fn colons_at(s: Seq<char>, j: int) -> bool {
    &&& 0 <= j
    &&& j + 1 < s.len()
    &&& s[j] == ':'
    &&& s[j + 1] == ':'
}

/// Whether two colons stand somewhere next to each other.
pub open spec fn has_colons(s: Seq<char>) -> bool {
    exists|j: int| #[trigger] colons_at(s, j)
}

/// Whether a text is a first part of a path, up to the first two colons: with one
/// colon more it would still hold no two next to each other.
pub open spec fn is_part(s: Seq<char>) -> bool {
    !has_colons(s.push(':'))
}

/// The separator of paths stands where two colons stand.
pub proof fn lemma_colons(s: Seq<char>, j: int)
    ensures
        occurs_at(s, "::"@, j) <==> colons_at(s, j),
{
    reveal_strlit("::");
    if 0 <= j && j + 2 <= s.len() {
        let t = s.subrange(j, j + 2);
        assert(t.len() == 2 && t[0] == s[j] && t[1] == s[j + 1]);
        if colons_at(s, j) {
            assert(t =~= "::"@);
        }
    }
}

/// In what follows a part, the first separator stands behind the part.
pub proof fn lemma_first_colons(part: Seq<char>, rest: Seq<char>)
    requires
        is_part(part),
    ensures
        first_occurrence(part + "::"@ + rest, "::"@) == Some(part.len() as int),
        (part + "::"@ + rest).take(part.len() as int) == part,
        (part + "::"@ + rest).skip(part.len() as int + 2) == rest,
{
    reveal_strlit("::");
    let s = part + "::"@ + rest;
    let n = part.len() as int;
    assert(s.take(n) =~= part);
    assert(s.skip(n + 2) =~= rest);
    assert(colons_at(s, n));
    lemma_colons(s, n);
    assert forall|j: int| 0 <= j < n implies !#[trigger] occurs_at(s, "::"@, j) by {
        lemma_colons(s, j);
        if colons_at(s, j) {
            let t = part.push(':');
            assert(t[j] == s[j] && t[j + 1] == s[j + 1]);
            assert(colons_at(t, j));
        }
    }
    assert(is_first_occurrence(s, "::"@, n));
    lemma_first_occurrence(s, "::"@, n);
}

/// Where the first separator stands, a part ends.
pub proof fn lemma_part_before_colons(s: Seq<char>, i: int)
    requires
        first_occurrence(s, "::"@) == Some(i),
    ensures
        0 <= i,
        i + 2 <= s.len(),
        is_part(s.take(i)),
        s == s.take(i) + "::"@ + s.skip(i + 2),
{
    reveal_strlit("::");
    assert(is_first_occurrence(s, "::"@, i));
    lemma_colons(s, i);
    let t = s.take(i).push(':');
    if has_colons(t) {
        let j = choose|j: int| #[trigger] colons_at(t, j);
        assert(t[j] == s[j] && t[j + 1] == s[j + 1]);
        lemma_colons(s, j);
        assert(occurs_at(s, "::"@, j));
    }
    assert(s =~= s.take(i) + "::"@ + s.skip(i + 2));
}

/// Without two colons there is no separator, and with them there is.
pub proof fn lemma_no_colons(s: Seq<char>)
    ensures
        first_occurrence(s, "::"@) is None <==> !has_colons(s),
{
    if first_occurrence(s, "::"@) is Some {
        let i = choose|i: int| #[trigger] is_first_occurrence(s, "::"@, i);
        lemma_colons(s, i);
    }
    if has_colons(s) {
        let j = choose|j: int| #[trigger] colons_at(s, j);
        lemma_colons(s, j);
        lemma_has_first_occurrence(s, "::"@, j);
    }
}

/// What stands somewhere stands somewhere first.
proof fn lemma_has_first_occurrence(s: Seq<char>, needle: Seq<char>, i: int)
    requires
        occurs_at(s, needle, i),
    ensures
        first_occurrence(s, needle) is Some,
    decreases i,
{
    if exists|j: int| 0 <= j < i && #[trigger] occurs_at(s, needle, j) {
        let j = choose|j: int| 0 <= j < i && #[trigger] occurs_at(s, needle, j);
        lemma_has_first_occurrence(s, needle, j);
    } else {
        assert(is_first_occurrence(s, needle, i));
    }
}

/// A path is split into its first part and the parts of what follows; a path
/// without two colons is its only part.
pub proof fn lemma_split_path(part: Seq<char>, rest: Seq<char>)
    ensures
        is_part(part) ==> split(part + "::"@ + rest, "::"@) == seq![part] + split(rest, "::"@),
        !has_colons(part) ==> split(part, "::"@) == seq![part],
{
    reveal_strlit("::");
    if is_part(part) {
        lemma_first_colons(part, rest);
    }
    if !has_colons(part) {
        lemma_no_colons(part);
    }
}

/// Parts joined into a path stand one behind the other with two colons between.
pub proof fn lemma_join_path(part: Seq<char>, rest: Seq<Seq<char>>)
    ensures
        join(seq![part], "::"@) == part,
        rest.len() > 0 ==> join(seq![part] + rest, "::"@) == part + "::"@ + join(rest, "::"@),
{
    if rest.len() > 0 {
        lemma_join_first(part, rest, "::"@);
    }
}

/// What stands before the first underscore of a text is what it begins with up to
/// there.
pub proof fn lemma_underscore(before: Seq<char>, after: Seq<char>)
    requires
        !before.contains('_'),
    ensures
        first_occurrence(before + "_"@ + after, "_"@) == Some(before.len() as int),
        (before + "_"@ + after).take(before.len() as int) == before,
{
    reveal_strlit("_");
    let s = before + "_"@ + after;
    let n = before.len() as int;
    assert(s.take(n) =~= before);
    assert(s.subrange(n, n + 1) =~= "_"@);
    assert forall|j: int| 0 <= j < n implies !#[trigger] occurs_at(s, "_"@, j) by {
        if occurs_at(s, "_"@, j) {
            assert(s.subrange(j, j + 1)[0] == '_');
            assert(before[j] == '_');
        }
    }
    assert(is_first_occurrence(s, "_"@, n));
    lemma_first_occurrence(s, "_"@, n);
}

/// Where the first underscore stands, what is before it holds none; without an
/// underscore there is no such place.
pub proof fn lemma_before_underscore(s: Seq<char>)
    ensures
        match first_occurrence(s, "_"@) {
            Some(i) => {
                &&& 0 <= i < s.len()
                &&& !s.take(i).contains('_')
                &&& s == s.take(i) + "_"@ + s.skip(i + 1)
            },
            None => !s.contains('_'),
        },
{
    reveal_strlit("_");
    match first_occurrence(s, "_"@) {
        Some(i) => {
            assert(is_first_occurrence(s, "_"@, i));
            assert(s.subrange(i, i + 1)[0] == '_');
            if s.take(i).contains('_') {
                let j = choose|j: int| 0 <= j < i && s.take(i)[j] == '_';
                assert(s.subrange(j, j + 1) =~= "_"@);
                assert(occurs_at(s, "_"@, j));
            }
            assert(s =~= s.take(i) + "_"@ + s.skip(i + 1));
        },
        None => {
            if s.contains('_') {
                let j = choose|j: int| 0 <= j < s.len() && s[j] == '_';
                assert(s.subrange(j, j + 1) =~= "_"@);
                lemma_has_first_occurrence(s, "_"@, j);
            }
        },
    }
}

/// A path is cut into three exactly where it has two separators: at the first two.
pub proof fn lemma_three_parts(s: Seq<char>)
    ensures
        splitn(s, "::"@, 3).len() == 3 ==> {
            let parts = splitn(s, "::"@, 3);
            &&& is_part(parts[0])
            &&& is_part(parts[1])
            &&& s == parts[0] + "::"@ + parts[1] + "::"@ + parts[2]
        },
{
    reveal_strlit("::");
    reveal_with_fuel(splitn, 4);
    if let Some(i) = first_occurrence(s, "::"@) {
        lemma_part_before_colons(s, i);
        let t = s.skip(i + 2);
        if let Some(k) = first_occurrence(t, "::"@) {
            lemma_part_before_colons(t, k);
            assert(s =~= s.take(i) + "::"@ + t.take(k) + "::"@ + t.skip(k + 2));
        }
    }
}

/// Three parts, joined, are cut into the three.
pub proof fn lemma_three_parts_found(a: Seq<char>, b: Seq<char>, c: Seq<char>)
    requires
        is_part(a),
        is_part(b),
    ensures
        splitn(a + "::"@ + b + "::"@ + c, "::"@, 3) == seq![a, b, c],
{
    reveal_strlit("::");
    reveal_with_fuel(splitn, 4);
    let t = b + "::"@ + c;
    assert(a + "::"@ + b + "::"@ + c =~= a + "::"@ + t);
    lemma_first_colons(a, t);
    lemma_first_colons(b, c);
    assert(splitn(t, "::"@, 2) =~= seq![b, c]);
    assert(splitn(a + "::"@ + t, "::"@, 3) =~= seq![a, b, c]);
}

/// Whether the characters of `needle` stand in `s` from place `i` on.
pub open spec fn reads_at(s: Seq<char>, needle: Seq<char>, i: int) -> bool {
    &&& 0 <= i
    &&& i + needle.len() <= s.len()
    &&& forall|j: int| 0 <= j < needle.len() ==> s[i + j] == #[trigger] needle[j]
}

/// Whether a text stands where its characters stand.
proof fn lemma_reads_at(s: Seq<char>, needle: Seq<char>, i: int)
    ensures
        reads_at(s, needle, i) <==> occurs_at(s, needle, i),
{
    if reads_at(s, needle, i) {
        assert(s.subrange(i, i + needle.len()) =~= needle);
    }
    if occurs_at(s, needle, i) {
        assert forall|j: int| 0 <= j < needle.len() implies s[i + j] == #[trigger] needle[j] by {
            assert(s.subrange(i, i + needle.len())[j] == needle[j]);
        }
    }
}

/// A text is found at the first place where its characters stand, and not found
/// where they stand nowhere.
pub proof fn lemma_found_first(s: Seq<char>, needle: Seq<char>)
    ensures
        match first_occurrence(s, needle) {
            Some(i) => {
                &&& reads_at(s, needle, i)
                &&& forall|j: int| 0 <= j < i ==> !#[trigger] reads_at(s, needle, j)
            },
            None => forall|j: int| !#[trigger] reads_at(s, needle, j),
        },
{
    match first_occurrence(s, needle) {
        Some(i) => {
            assert(is_first_occurrence(s, needle, i));
            lemma_reads_at(s, needle, i);
            assert forall|j: int| 0 <= j < i implies !#[trigger] reads_at(s, needle, j) by {
                lemma_reads_at(s, needle, j);
            }
        },
        None => {
            assert forall|j: int| !#[trigger] reads_at(s, needle, j) by {
                lemma_reads_at(s, needle, j);
                if reads_at(s, needle, j) {
                    lemma_has_first_occurrence(s, needle, j);
                }
            }
        },
    }
}

/// Whether a separator stands nowhere in a text.
pub open spec fn is_whole(s: Seq<char>, sep: Seq<char>) -> bool {
    forall|j: int| !#[trigger] reads_at(s, sep, j)
}

/// Whether a piece ends where the first separator behind it begins.
pub open spec fn ends_at_first(piece: Seq<char>, sep: Seq<char>) -> bool {
    forall|j: int| 0 <= j < piece.len() ==> !#[trigger] reads_at(piece + sep, sep, j)
}

/// Where a separator is found in a text, the piece before it ends there, and the
/// text is that piece, the separator and the rest.
proof fn lemma_cut(s: Seq<char>, sep: Seq<char>, i: int)
    requires
        first_occurrence(s, sep) == Some(i),
    ensures
        0 <= i,
        i + sep.len() <= s.len(),
        ends_at_first(s.take(i), sep),
        s == s.take(i) + sep + s.skip(i + sep.len()),
{
    lemma_found_first(s, sep);
    let piece = s.take(i);
    let rest = s.skip(i + sep.len());
    assert(s =~= piece + sep + rest);
    assert forall|j: int| 0 <= j < piece.len() implies !#[trigger] reads_at(
        piece + sep,
        sep,
        j,
    ) by {
        if reads_at(piece + sep, sep, j) {
            assert forall|k: int| 0 <= k < sep.len() implies s[j + k] == #[trigger] sep[k] by {
                assert((piece + sep)[j + k] == sep[k]);
            }
            assert(reads_at(s, sep, j));
        }
    }
}

/// The pieces that a text is split into make up the text, joined by the separator;
/// each ends where the first separator begins, and the last holds none.
pub proof fn lemma_split_pieces(s: Seq<char>, sep: Seq<char>)
    requires
        sep.len() > 0,
    ensures
        split(s, sep).len() > 0,
        join(split(s, sep), sep) == s,
        forall|i: int|
            0 <= i < split(s, sep).len() - 1 ==> ends_at_first(#[trigger] split(s, sep)[i], sep),
        is_whole(split(s, sep).last(), sep),
    decreases s.len(),
{
    lemma_join_split(s, sep);
    lemma_found_first(s, sep);
    if let Some(i) = first_occurrence(s, sep) {
        let rest = s.skip(i + sep.len());
        lemma_cut(s, sep, i);
        lemma_split_pieces(rest, sep);
        let parts = split(s, sep);
        let others = split(rest, sep);
        assert(parts == seq![s.take(i)] + others);
        assert(parts.last() == others.last());
        assert forall|k: int| 0 <= k < parts.len() - 1 implies ends_at_first(
            #[trigger] parts[k],
            sep,
        ) by {
            if k > 0 {
                assert(parts[k] == others[k - 1]);
            }
        }
    }
}

/// The pieces, at most `n`, that a text is split into make up the text, joined by
/// the separator; each but the last ends where the first separator begins, and the
/// last holds one only if there are `n` pieces.
pub proof fn lemma_splitn_pieces(s: Seq<char>, sep: Seq<char>, n: nat)
    ensures
        n == 0 ==> splitn(s, sep, n).len() == 0,
        n > 0 ==> {
            let parts = splitn(s, sep, n);
            &&& 0 < parts.len() <= n
            &&& join(parts, sep) == s
            &&& forall|i: int| 0 <= i < parts.len() - 1 ==> ends_at_first(#[trigger] parts[i], sep)
            &&& parts.len() < n ==> is_whole(parts.last(), sep)
        },
    decreases n,
{
    lemma_found_first(s, sep);
    if n > 1 {
        if let Some(i) = first_occurrence(s, sep) {
            let rest = s.skip(i + sep.len());
            lemma_cut(s, sep, i);
            lemma_splitn_pieces(rest, sep, (n - 1) as nat);
            let parts = splitn(s, sep, n);
            let others = splitn(rest, sep, (n - 1) as nat);
            assert(parts == seq![s.take(i)] + others);
            lemma_join_first(s.take(i), others, sep);
            assert(parts.last() == others.last());
            assert forall|k: int| 0 <= k < parts.len() - 1 implies ends_at_first(
                #[trigger] parts[k],
                sep,
            ) by {
                if k > 0 {
                    assert(parts[k] == others[k - 1]);
                }
            }
        }
    }
}

/// Pieces are joined one behind the other with the separator between.
pub proof fn lemma_joined(piece: Seq<char>, rest: Seq<Seq<char>>, sep: Seq<char>)
    ensures
        join(seq![], sep) == Seq::<char>::empty(),
        join(seq![piece], sep) == piece,
        rest.len() > 0 ==> join(seq![piece] + rest, sep) == piece + sep + join(rest, sep),
{
    if rest.len() > 0 {
        lemma_join_first(piece, rest, sep);
    }
}

} // verus!
