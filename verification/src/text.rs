//! Operations on text, stated over the sequence of characters that a string
//! holds.
use vstd::prelude::*;

verus! {

broadcast use {vstd::string::group_string_axioms, vstd::seq::group_seq_axioms};

/// `String::push`: appends one character.
pub assume_specification[ String::push ](s: &mut String, c: char)
    ensures
        final(s)@ == old(s)@.push(c),
;

/// Whether `needle` stands in `s` at position `i`.
pub open spec fn occurs_at(s: Seq<char>, needle: Seq<char>, i: int) -> bool {
    &&& 0 <= i
    &&& i + needle.len() <= s.len()
    &&& s.subrange(i, i + needle.len()) == needle
}

/// Whether `i` is the leftmost position at which `needle` stands in `s`.
pub open spec fn is_first_occurrence(s: Seq<char>, needle: Seq<char>, i: int) -> bool {
    &&& occurs_at(s, needle, i)
    &&& forall|j: int| 0 <= j < i ==> !#[trigger] occurs_at(s, needle, j)
}

/// The leftmost position at which `needle` stands in `s`.
pub open spec fn first_occurrence(s: Seq<char>, needle: Seq<char>) -> Option<int> {
    if exists|i: int| #[trigger] is_first_occurrence(s, needle, i) {
        Some(choose|i: int| #[trigger] is_first_occurrence(s, needle, i))
    } else {
        None
    }
}

/// The pieces of `s` between the occurrences of `sep`, taken from the left and
/// without overlap.
pub open spec fn split(s: Seq<char>, sep: Seq<char>) -> Seq<Seq<char>>
    decreases s.len(),
{
    match first_occurrence(s, sep) {
        Some(i) => if sep.len() > 0 {
            seq![s.take(i)] + split(s.skip(i + sep.len()), sep)
        } else {
            seq![s]
        },
        None => seq![s],
    }
}

/// As `split`, but with at most `n` pieces: the last one keeps the rest.
pub open spec fn splitn(s: Seq<char>, sep: Seq<char>, n: nat) -> Seq<Seq<char>>
    decreases n,
{
    if n == 0 {
        seq![]
    } else if n == 1 {
        seq![s]
    } else {
        match first_occurrence(s, sep) {
            Some(i) => seq![s.take(i)] + splitn(s.skip(i + sep.len()), sep, (n - 1) as nat),
            None => seq![s],
        }
    }
}

/// The pieces put together again, with `sep` between each two of them.
pub open spec fn join(parts: Seq<Seq<char>>, sep: Seq<char>) -> Seq<char>
    decreases parts.len(),
{
    if parts.len() == 0 {
        seq![]
    } else if parts.len() == 1 {
        parts[0]
    } else {
        join(parts.drop_last(), sep) + sep + parts.last()
    }
}

/// The characters that a slice of strings holds.
pub open spec fn all_chars(parts: Seq<String>) -> Seq<Seq<char>> {
    parts.map_values(|p: String| p@)
}

/// The characters of an optional string.
pub open spec fn opt_chars(s: Option<String>) -> Option<Seq<char>> {
    match s {
        Some(t) => Some(t@),
        None => None,
    }
}

/// The decimal digit of value `d`.
pub open spec fn digit(d: int) -> char {
    ('0' as int + d) as char
}

/// `n` written in decimal.
pub open spec fn decimal(n: nat) -> Seq<char>
    decreases n,
{
    if n < 10 {
        seq![digit(n as int)]
    } else {
        decimal(n / 10).push(digit((n % 10) as int))
    }
}

/// The lexicographic order of texts, by the characters' code points.
pub open spec fn less(a: Seq<char>, b: Seq<char>) -> bool
    decreases a.len(),
{
    if b.len() == 0 {
        false
    } else if a.len() == 0 {
        true
    } else if a[0] != b[0] {
        (a[0] as int) < (b[0] as int)
    } else {
        less(a.skip(1), b.skip(1))
    }
}

/// A first occurrence is the first occurrence.
pub proof fn lemma_first_occurrence(s: Seq<char>, needle: Seq<char>, i: int)
    requires
        is_first_occurrence(s, needle, i),
    ensures
        first_occurrence(s, needle) == Some(i),
{
    let j = choose|j: int| #[trigger] is_first_occurrence(s, needle, j);
    assert(is_first_occurrence(s, needle, j));
    if j < i {
        assert(!occurs_at(s, needle, j));
    } else if i < j {
        assert(!occurs_at(s, needle, i));
    }
}

/// The characters of a string, one by one.
pub fn chars_of(s: &str) -> (r: Vec<char>)
    ensures
        r@ == s@,
{
    let mut r: Vec<char> = Vec::new();
    for c in it: s.chars()
        invariant
            it.seq() == s@,
            r@ == s@.take(it.index() as int),
    {
        proof {
            assert(s@.take(it.index() + 1) =~= s@.take(it.index() as int).push(s@[it.index() as int]));
        }
        r.push(c);
    }
    assert(s@.take(s@.len() as int) =~= s@);
    r
}

/// Whether two texts are the same.
pub fn same(a: &str, b: &str) -> (r: bool)
    ensures
        r == (a@ == b@),
{
    a.to_owned() == b.to_owned()
}

/// Whether two optional texts are the same.
pub fn same_opt(a: &Option<String>, b: &Option<String>) -> (r: bool)
    ensures
        r == (opt_chars(*a) == opt_chars(*b)),
{
    match (a, b) {
        (Some(x), Some(y)) => *x == *y,
        (None, None) => true,
        _ => false,
    }
}

/// A copy of an optional text.
pub fn copy_opt(a: &Option<String>) -> (r: Option<String>)
    ensures
        opt_chars(r) == opt_chars(*a),
{
    match a {
        Some(x) => Some(x.clone()),
        None => None,
    }
}

/// Whether `needle` stands in `hay` at position `i`.
fn stands_at(hay: &Vec<char>, needle: &Vec<char>, i: usize) -> (r: bool)
    requires
        i + needle@.len() <= hay@.len(),
    ensures
        r == occurs_at(hay@, needle@, i as int),
{
    let total: usize = hay.len();
    let mut k: usize = 0;
    while k < needle.len()
        invariant
            k <= needle@.len(),
            i + needle@.len() <= hay@.len(),
            total == hay@.len(),
            forall|j: int| 0 <= j < k ==> hay@[i + j] == needle@[j],
        decreases needle@.len() - k,
    {
        if hay[i + k] != needle[k] {
            assert(hay@.subrange(i as int, i + needle@.len())[k as int] != needle@[k as int]);
            return false;
        }
        k += 1;
    }
    assert(hay@.subrange(i as int, i + needle@.len()) =~= needle@);
    true
}

/// The leftmost position of `needle` in `s`, counted in characters.
pub fn find(s: &str, needle: &str) -> (r: Option<usize>)
    ensures
        match r {
            Some(i) => first_occurrence(s@, needle@) == Some(i as int) && i + needle@.len()
                <= s@.len(),
            None => first_occurrence(s@, needle@) is None,
        },
{
    let hay = chars_of(s);
    let pin = chars_of(needle);
    if pin.len() > hay.len() {
        return None;
    }
    let last: usize = hay.len() - pin.len();
    let mut i: usize = 0;
    while i <= last
        invariant
            hay@ == s@,
            pin@ == needle@,
            last == hay@.len() - pin@.len(),
            i <= last + 1,
            forall|j: int| 0 <= j < i ==> !#[trigger] occurs_at(s@, needle@, j),
        decreases last + 1 - i,
    {
        if stands_at(&hay, &pin, i) {
            proof {
                lemma_first_occurrence(s@, needle@, i as int);
            }
            return Some(i);
        }
        if i == last {
            return None;
        }
        i += 1;
    }
    None
}

/// What is left of `s` behind `prefix`, if `s` begins with it.
pub fn strip_prefix(s: &str, prefix: &str) -> (r: Option<String>)
    ensures
        match r {
            Some(rest) => prefix@.is_prefix_of(s@) && rest@ == s@.skip(prefix@.len() as int),
            None => !prefix@.is_prefix_of(s@),
        },
{
    let hay = chars_of(s);
    let pin = chars_of(prefix);
    if pin.len() > hay.len() {
        return None;
    }
    if stands_at(&hay, &pin, 0) {
        Some(s.substring_char(pin.len(), hay.len()).to_owned())
    } else {
        None
    }
}

/// Whether `s` begins with `prefix`.
pub fn begins_with(s: &str, prefix: &str) -> (r: bool)
    ensures
        r == prefix@.is_prefix_of(s@),
{
    let hay = chars_of(s);
    let pin = chars_of(prefix);
    pin.len() <= hay.len() && stands_at(&hay, &pin, 0)
}

/// Whether `s` ends with `suffix`.
pub fn ends_with(s: &str, suffix: &str) -> (r: bool)
    ensures
        r == suffix@.is_suffix_of(s@),
{
    let hay = chars_of(s);
    let pin = chars_of(suffix);
    pin.len() <= hay.len() && stands_at(&hay, &pin, hay.len() - pin.len())
}

/// What stands before the first `sep` and what stands behind it.
pub fn split_once(s: &str, sep: &str) -> (r: Option<(String, String)>)
    ensures
        match r {
            Some((before, after)) => {
                &&& first_occurrence(s@, sep@) is Some
                &&& before@ == s@.take(first_occurrence(s@, sep@)->0)
                &&& after@ == s@.skip(first_occurrence(s@, sep@)->0 + sep@.len())
            },
            None => first_occurrence(s@, sep@) is None,
        },
{
    match find(s, sep) {
        Some(i) => {
            let n: usize = s.unicode_len();
            let k: usize = sep.unicode_len();
            let before = s.substring_char(0, i).to_owned();
            let after = s.substring_char(i + k, n).to_owned();
            Some((before, after))
        },
        None => None,
    }
}

/// Splits `s` at each `sep`.
pub fn split_at_each(s: &str, sep: &str) -> (r: Vec<String>)
    requires
        sep@.len() > 0,
    ensures
        all_chars(r@) == split(s@, sep@),
{
    let mut parts: Vec<String> = Vec::new();
    let mut rest: String = s.to_owned();
    assert(all_chars(parts@) + split(s@, sep@) =~= split(s@, sep@));
    loop
        invariant
            sep@.len() > 0,
            all_chars(parts@) + split(rest@, sep@) == split(s@, sep@),
        decreases rest@.len(),
    {
        match split_once(rest.as_str(), sep) {
            Some((before, after)) => {
                let ghost old_parts = parts@;
                let ghost old_rest = rest@;
                parts.push(before);
                rest = after;
                proof {
                    assert(all_chars(parts@) =~= all_chars(old_parts).push(before@));
                    assert(split(old_rest, sep@) =~= seq![before@] + split(rest@, sep@));
                    assert(all_chars(parts@) + split(rest@, sep@) =~= all_chars(old_parts) + split(
                        old_rest,
                        sep@,
                    ));
                }
            },
            None => {
                let ghost old_parts = parts@;
                parts.push(rest);
                assert(all_chars(parts@) =~= all_chars(old_parts) + seq![rest@]);
                return parts;
            },
        }
    }
}

/// Splits `s` at `sep` into at most `n` pieces.
pub fn split_at_most(s: &str, sep: &str, n: usize) -> (r: Vec<String>)
    ensures
        all_chars(r@) == splitn(s@, sep@, n as nat),
{
    let mut parts: Vec<String> = Vec::new();
    let mut rest: String = s.to_owned();
    let mut left: usize = n;
    assert(all_chars(parts@) + splitn(s@, sep@, n as nat) =~= splitn(s@, sep@, n as nat));
    while left > 0
        invariant
            all_chars(parts@) + splitn(rest@, sep@, left as nat) == splitn(s@, sep@, n as nat),
        decreases left,
    {
        let ghost old_parts = parts@;
        let ghost old_rest = rest@;
        if left == 1 {
            parts.push(rest);
            assert(all_chars(parts@) =~= all_chars(old_parts) + seq![rest@]);
            return parts;
        }
        match split_once(rest.as_str(), sep) {
            Some((before, after)) => {
                parts.push(before);
                rest = after;
                left -= 1;
                proof {
                    assert(all_chars(parts@) =~= all_chars(old_parts).push(before@));
                    assert(all_chars(parts@) + splitn(rest@, sep@, left as nat) =~= all_chars(
                        old_parts,
                    ) + splitn(old_rest, sep@, (left + 1) as nat));
                }
            },
            None => {
                parts.push(rest);
                assert(all_chars(parts@) =~= all_chars(old_parts) + seq![rest@]);
                return parts;
            },
        }
    }
    assert(all_chars(parts@) + splitn(rest@, sep@, 0) =~= all_chars(parts@));
    parts
}

/// Puts the parts together, with `sep` between each two of them.
pub fn join_all(parts: &Vec<String>, sep: &str) -> (r: String)
    ensures
        r@ == join(all_chars(parts@), sep@),
{
    let mut r = String::new();
    let mut i: usize = 0;
    while i < parts.len()
        invariant
            i <= parts@.len(),
            r@ == join(all_chars(parts@).take(i as int), sep@),
        decreases parts@.len() - i,
    {
        let ghost all = all_chars(parts@);
        if i > 0 {
            r.append(sep);
        }
        r.append(parts[i].as_str());
        i += 1;
        proof {
            let now = all.take(i as int);
            assert(now.drop_last() =~= all.take(i - 1));
            assert(now.last() == parts@[i - 1]@);
            if i == 1 {
                assert(r@ =~= parts@[0]@);
            }
        }
    }
    assert(all_chars(parts@).take(i as int) =~= all_chars(parts@));
    r
}

/// Writes a number in decimal.
pub fn decimal_of(n: u64) -> (r: String)
    ensures
        r@ == decimal(n as nat),
    decreases n,
{
    if n < 10 {
        let mut r = String::new();
        r.push((48u8 + n as u8) as char);
        assert(r@ =~= seq![digit(n as int)]);
        r
    } else {
        let mut r = decimal_of(n / 10);
        r.push((48u8 + (n % 10) as u8) as char);
        r
    }
}

/// Whether `a` stands before `b` in the lexicographic order.
pub fn is_less(a: &str, b: &str) -> (r: bool)
    ensures
        r == less(a@, b@),
{
    let x = chars_of(a);
    let y = chars_of(b);
    let mut i: usize = 0;
    assert(a@.skip(0) =~= a@);
    assert(b@.skip(0) =~= b@);
    while i < x.len() && i < y.len()
        invariant
            x@ == a@,
            y@ == b@,
            i <= x@.len(),
            i <= y@.len(),
            less(a@, b@) == less(a@.skip(i as int), b@.skip(i as int)),
        decreases x@.len() - i,
    {
        if x[i] != y[i] {
            return x[i] < y[i];
        }
        assert(a@.skip(i as int).skip(1) =~= a@.skip(i + 1));
        assert(b@.skip(i as int).skip(1) =~= b@.skip(i + 1));
        i += 1;
    }
    i < y.len()
}

/// The order is strict.
pub proof fn lemma_less_irreflexive(a: Seq<char>)
    ensures
        !less(a, a),
    decreases a.len(),
{
    if a.len() > 0 {
        lemma_less_irreflexive(a.skip(1));
    }
}

/// The order is transitive.
pub proof fn lemma_less_transitive(a: Seq<char>, b: Seq<char>, c: Seq<char>)
    requires
        less(a, b),
        less(b, c),
    ensures
        less(a, c),
    decreases a.len(),
{
    if a.len() > 0 && b.len() > 0 && c.len() > 0 && a[0] == b[0] && b[0] == c[0] {
        lemma_less_transitive(a.skip(1), b.skip(1), c.skip(1));
    }
}

/// Two different texts are ordered one way or the other.
pub proof fn lemma_less_total(a: Seq<char>, b: Seq<char>)
    requires
        a != b,
    ensures
        less(a, b) || less(b, a),
    decreases a.len(),
{
    if a.len() > 0 && b.len() > 0 && a[0] == b[0] {
        if a.skip(1) == b.skip(1) {
            assert(a =~= seq![a[0]] + a.skip(1));
            assert(b =~= seq![b[0]] + b.skip(1));
        } else {
            lemma_less_total(a.skip(1), b.skip(1));
        }
    } else if a.len() == 0 && b.len() == 0 {
        assert(a =~= b);
    }
}

/// The first piece stands first in what is joined.
pub proof fn lemma_join_first(piece: Seq<char>, rest: Seq<Seq<char>>, sep: Seq<char>)
    requires
        rest.len() > 0,
    ensures
        join(seq![piece] + rest, sep) == piece + sep + join(rest, sep),
    decreases rest.len(),
{
    let all = seq![piece] + rest;
    assert(all.last() == rest.last());
    assert(all.drop_last() =~= seq![piece] + rest.drop_last());
    if rest.len() == 1 {
        assert(all.drop_last() =~= seq![piece]);
        assert(join(all.drop_last(), sep) == piece);
    } else {
        lemma_join_first(piece, rest.drop_last(), sep);
        assert(join(all, sep) =~= piece + sep + join(rest, sep));
    }
}

/// The pieces that a text is split into, joined again, are the text.
pub proof fn lemma_join_split(s: Seq<char>, sep: Seq<char>)
    ensures
        join(split(s, sep), sep) == s,
        split(s, sep).len() > 0,
    decreases s.len(),
{
    if let Some(i) = first_occurrence(s, sep) {
        if sep.len() > 0 {
            let rest = s.skip(i + sep.len());
            assert(is_first_occurrence(s, sep, i));
            lemma_join_split(rest, sep);
            lemma_join_first(s.take(i), split(rest, sep), sep);
            assert(s.take(i) + sep + rest =~= s);
        }
    }
}

/// A number is written in decimal with at least one digit, and with digits alone.
pub proof fn lemma_decimal(n: nat)
    ensures
        decimal(n).len() > 0,
        forall|i: int|
            0 <= i < decimal(n).len() ==> '0' as int <= (#[trigger] decimal(n)[i]) as int
                && decimal(n)[i] as int <= '9' as int,
    decreases n,
{
    if n >= 10 {
        lemma_decimal(n / 10);
    }
}

/// Different numbers are written differently in decimal.
pub proof fn lemma_decimal_injective(a: nat, b: nat)
    requires
        decimal(a) == decimal(b),
    ensures
        a == b,
    decreases a,
{
    lemma_decimal(a);
    lemma_decimal(b);
    assert(digit((a % 10) as int) as int == '0' as int + a % 10);
    assert(digit((b % 10) as int) as int == '0' as int + b % 10);
    assert(decimal(a).last() == digit((a % 10) as int));
    assert(decimal(b).last() == digit((b % 10) as int));
    if a >= 10 {
        lemma_decimal(a / 10);
        assert(decimal(a).len() > 1);
        assert(b >= 10);
        assert(decimal(a).drop_last() =~= decimal(a / 10));
        assert(decimal(b).drop_last() =~= decimal(b / 10));
        lemma_decimal_injective(a / 10, b / 10);
    } else if b >= 10 {
        lemma_decimal(b / 10);
        assert(decimal(b).len() > 1);
        assert(decimal(a).len() == 1);
    }
}

} // verus!
