//! Character-sequence utilities: lexicographic comparison, joining and
//! splitting on a separator, and scanning for the `#/` separator of a
//! type reference.  Specifications are stated over `Seq<char>`, the view
//! of `&str` and `String`.

use vstd::prelude::*;

verus! {

/// Strict lexicographic order on character sequences, by code point.
pub open spec fn chars_lt(a: Seq<char>, b: Seq<char>) -> bool
    decreases a.len(),
{
    if b.len() == 0 {
        false
    } else if a.len() == 0 {
        true
    } else if a[0] == b[0] {
        chars_lt(a.drop_first(), b.drop_first())
    } else {
        (a[0] as u32) < (b[0] as u32)
    }
}

/// Distinct characters have distinct code points.
proof fn lemma_char_code_injective(a: char, b: char)
    requires
        a != b,
    ensures
        a as u32 != b as u32,
{
}

pub proof fn lemma_chars_lt_asymmetric(a: Seq<char>, b: Seq<char>)
    ensures
        !(chars_lt(a, b) && chars_lt(b, a)),
    decreases a.len(),
{
    if a.len() > 0 && b.len() > 0 && a[0] == b[0] {
        lemma_chars_lt_asymmetric(a.drop_first(), b.drop_first());
    }
}

pub proof fn lemma_chars_lt_connected(a: Seq<char>, b: Seq<char>)
    requires
        !chars_lt(a, b),
        !chars_lt(b, a),
    ensures
        a == b,
    decreases a.len(),
{
    if a.len() == 0 || b.len() == 0 {
        assert(a =~= b);
    } else if a[0] == b[0] {
        lemma_chars_lt_connected(a.drop_first(), b.drop_first());
        assert(a =~= seq![a[0]] + a.drop_first());
        assert(b =~= seq![b[0]] + b.drop_first());
    } else {
        lemma_char_code_injective(a[0], b[0]);
        assert(false);
    }
}

pub proof fn lemma_chars_lt_transitive(a: Seq<char>, b: Seq<char>, c: Seq<char>)
    requires
        chars_lt(a, b),
        chars_lt(b, c),
    ensures
        chars_lt(a, c),
    decreases a.len(),
{
    if a.len() > 0 && b.len() > 0 && c.len() > 0 {
        if a[0] == b[0] && b[0] == c[0] {
            lemma_chars_lt_transitive(a.drop_first(), b.drop_first(), c.drop_first());
        }
    }
}

/// The first index where `a` and `b` differ decides their order.
proof fn lemma_chars_lt_from_difference(a: Seq<char>, b: Seq<char>, i: int)
    requires
        0 <= i < a.len(),
        i < b.len(),
        forall|j: int| 0 <= j < i ==> a[j] == b[j],
        (a[i] as u32) < (b[i] as u32),
    ensures
        chars_lt(a, b),
    decreases i,
{
    if i > 0 {
        lemma_chars_lt_from_difference(a.drop_first(), b.drop_first(), i - 1);
    }
}

/// A proper prefix is smaller.
proof fn lemma_chars_lt_from_prefix(a: Seq<char>, b: Seq<char>)
    requires
        a.len() < b.len(),
        forall|j: int| 0 <= j < a.len() ==> a[j] == b[j],
    ensures
        chars_lt(a, b),
    decreases a.len(),
{
    if a.len() > 0 {
        lemma_chars_lt_from_prefix(a.drop_first(), b.drop_first());
    }
}

/// Three-way comparison of two string slices in lexicographic order by
/// code point, the order in which resolved type references are listed.
pub fn cmp_str(a: &str, b: &str) -> (r: core::cmp::Ordering)
    ensures
        r == core::cmp::Ordering::Less <==> chars_lt(a@, b@),
        r == core::cmp::Ordering::Equal <==> a@ == b@,
        r == core::cmp::Ordering::Greater <==> chars_lt(b@, a@),
{
    proof {
        lemma_chars_lt_asymmetric(a@, b@);
    }
    let la = a.unicode_len();
    let lb = b.unicode_len();
    let mut i: usize = 0;
    while i < la && i < lb
        invariant
            la == a@.len(),
            lb == b@.len(),
            0 <= i <= la,
            i <= lb,
            forall|j: int| 0 <= j < i ==> a@[j] == b@[j],
        decreases la - i,
    {
        let ca = a.get_char(i);
        let cb = b.get_char(i);
        if (ca as u32) < (cb as u32) {
            proof {
                lemma_chars_lt_from_difference(a@, b@, i as int);
                lemma_chars_lt_asymmetric(a@, b@);
            }
            return core::cmp::Ordering::Less;
        }
        if (cb as u32) < (ca as u32) {
            proof {
                lemma_chars_lt_from_difference(b@, a@, i as int);
                lemma_chars_lt_asymmetric(a@, b@);
            }
            return core::cmp::Ordering::Greater;
        }
        assert(a@[i as int] == b@[i as int]);
        i = i + 1;
    }
    if la == lb {
        proof {
            assert(a@ =~= b@);
        }
        core::cmp::Ordering::Equal
    } else if la < lb {
        proof {
            lemma_chars_lt_from_prefix(a@, b@);
            lemma_chars_lt_asymmetric(a@, b@);
        }
        core::cmp::Ordering::Less
    } else {
        proof {
            lemma_chars_lt_from_prefix(b@, a@);
            lemma_chars_lt_asymmetric(a@, b@);
        }
        core::cmp::Ordering::Greater
    }
}

/// Equality of two string slices, decided character by character.
pub fn str_eq(a: &str, b: &str) -> (r: bool)
    ensures
        r == (a@ == b@),
{
    matches!(cmp_str(a, b), core::cmp::Ordering::Equal)
}

/// The views of a sequence of strings.
pub open spec fn views_of(parts: Seq<String>) -> Seq<Seq<char>> {
    parts.map_values(|p: String| p@)
}

/// The parts interleaved with the separator.
pub open spec fn join_with(parts: Seq<Seq<char>>, sep: Seq<char>) -> Seq<char>
    decreases parts.len(),
{
    if parts.len() == 0 {
        Seq::empty()
    } else if parts.len() == 1 {
        parts[0]
    } else {
        parts[0] + sep + join_with(parts.drop_first(), sep)
    }
}

proof fn lemma_join_push(parts: Seq<Seq<char>>, last: Seq<char>, sep: Seq<char>)
    requires
        parts.len() >= 1,
    ensures
        join_with(parts.push(last), sep) == join_with(parts, sep) + sep + last,
    decreases parts.len(),
{
    let whole = parts.push(last);
    assert(whole.drop_first() =~= parts.drop_first().push(last));
    if parts.len() == 1 {
        assert(join_with(whole.drop_first(), sep) == last);
        assert(join_with(whole, sep) =~= parts[0] + sep + last);
        assert(join_with(parts, sep) + sep + last =~= parts[0] + sep + last);
    } else {
        lemma_join_push(parts.drop_first(), last, sep);
        assert(join_with(whole, sep) =~= join_with(parts, sep) + sep + last);
    }
}

/// Concatenates the parts with the separator between them.
pub fn join_strings(parts: &Vec<String>, sep: &str) -> (r: String)
    ensures
        r@ == join_with(views_of(parts@), sep@),
{
    if parts.len() == 0 {
        return String::new();
    }
    let mut r: String = parts[0].clone();
    let mut i: usize = 1;
    while i < parts.len()
        invariant
            1 <= i <= parts@.len(),
            r@ == join_with(views_of(parts@).take(i as int), sep@),
        decreases parts@.len() - i,
    {
        proof {
            let vs = views_of(parts@);
            assert(vs.take(i + 1 as int) =~= vs.take(i as int).push(vs[i as int]));
            lemma_join_push(vs.take(i as int), vs[i as int], sep@);
        }
        r.append(sep);
        r.append(parts[i].as_str());
        i = i + 1;
    }
    proof {
        assert(views_of(parts@).take(parts@.len() as int) =~= views_of(parts@));
    }
    r
}

/// Splitting a character sequence at every occurrence of `c`.  The
/// result always holds at least one part; the separators themselves are
/// dropped.
pub open spec fn split_char(s: Seq<char>, c: char) -> Seq<Seq<char>>
    decreases s.len(),
{
    if s.len() == 0 {
        seq![Seq::empty()]
    } else if s[0] == c {
        seq![Seq::<char>::empty()] + split_char(s.drop_first(), c)
    } else {
        let rest = split_char(s.drop_first(), c);
        seq![seq![s[0]] + rest[0]] + rest.drop_first()
    }
}

pub proof fn lemma_split_nonempty(s: Seq<char>, c: char)
    ensures
        split_char(s, c).len() >= 1,
    decreases s.len(),
{
    if s.len() > 0 {
        lemma_split_nonempty(s.drop_first(), c);
    }
}

/// Joining the parts of a split restores the original sequence, so a
/// character sequence is fully determined by its split.
pub proof fn lemma_join_of_split(s: Seq<char>, c: char)
    ensures
        join_with(split_char(s, c), seq![c]) == s,
    decreases s.len(),
{
    if s.len() == 0 {
        assert(join_with(split_char(s, c), seq![c]) =~= s);
    } else if s[0] == c {
        let t = s.drop_first();
        lemma_join_of_split(t, c);
        lemma_split_nonempty(t, c);
        let whole = split_char(s, c);
        assert(whole.drop_first() =~= split_char(t, c));
        assert(join_with(whole, c_seq(c)) =~= Seq::<char>::empty() + c_seq(c) + join_with(
            split_char(t, c),
            c_seq(c),
        ));
        assert(join_with(whole, c_seq(c)) =~= s);
    } else {
        let t = s.drop_first();
        lemma_join_of_split(t, c);
        lemma_split_nonempty(t, c);
        let rest = split_char(t, c);
        let whole = split_char(s, c);
        assert(whole.drop_first() =~= rest.drop_first());
        if rest.len() == 1 {
            assert(join_with(rest, c_seq(c)) == rest[0]);
            assert(whole.len() == 1);
            assert(join_with(whole, c_seq(c)) == whole[0]);
            assert(whole[0] =~= seq![s[0]] + rest[0]);
            assert(join_with(whole, c_seq(c)) =~= s);
        } else {
            assert(join_with(rest, c_seq(c)) == rest[0] + c_seq(c) + join_with(
                rest.drop_first(),
                c_seq(c),
            ));
            assert(join_with(whole, c_seq(c)) == whole[0] + c_seq(c) + join_with(
                whole.drop_first(),
                c_seq(c),
            ));
            assert(t == rest[0] + c_seq(c) + join_with(rest.drop_first(), c_seq(c)));
            assert(whole[0] =~= seq![s[0]] + rest[0]);
            assert(s =~= seq![s[0]] + t);
            assert(join_with(whole, c_seq(c)) =~= s);
        }
    }
}

/// A one-character sequence.
pub open spec fn c_seq(c: char) -> Seq<char> {
    seq![c]
}

/// Whether `x` occurs in the list.
pub open spec fn strs_contain(list: Seq<String>, x: Seq<char>) -> bool {
    exists|i: int| 0 <= i < list.len() && (#[trigger] list[i]@) == x
}

/// Scans the list for `x`.
pub fn contains_string(list: &Vec<String>, x: &str) -> (r: bool)
    ensures
        r == strs_contain(list@, x@),
{
    let mut i: usize = 0;
    while i < list.len()
        invariant
            0 <= i <= list@.len(),
            forall|j: int| 0 <= j < i ==> (#[trigger] list@[j]@) != x@,
        decreases list@.len() - i,
    {
        if str_eq(list[i].as_str(), x) {
            proof {
                assert(list@[i as int]@ == x@);
            }
            return true;
        }
        i = i + 1;
    }
    false
}

/// Copies a list of strings.
pub fn clone_string_vec(list: &Vec<String>) -> (r: Vec<String>)
    ensures
        views_of(r@) == views_of(list@),
{
    let mut r: Vec<String> = Vec::new();
    let mut i: usize = 0;
    while i < list.len()
        invariant
            0 <= i <= list@.len(),
            r@.len() == i,
            forall|j: int| 0 <= j < i ==> (#[trigger] r@[j]@) == list@[j]@,
        decreases list@.len() - i,
    {
        r.push(list[i].clone());
        i = i + 1;
    }
    proof {
        assert(views_of(r@) =~= views_of(list@));
    }
    r
}

/// The first part extended on the left by `x`.
spec fn prepend_first(x: Seq<char>, ss: Seq<Seq<char>>) -> Seq<Seq<char>> {
    seq![x + ss[0]] + ss.drop_first()
}

/// Splits `s` at every occurrence of `c`, dropping the separators.
pub fn split_string(s: &str, c: char) -> (r: Vec<String>)
    ensures
        views_of(r@) == split_char(s@, c),
{
    let n = s.unicode_len();
    let mut parts: Vec<String> = Vec::new();
    let mut cur: String = String::new();
    let mut i: usize = 0;
    proof {
        lemma_split_nonempty(s@, c);
        assert(s@.skip(0) =~= s@);
        assert(views_of(parts@) =~= Seq::<Seq<char>>::empty());
        assert(Seq::<Seq<char>>::empty() + prepend_first(cur@, split_char(s@, c)) =~~= split_char(
            s@,
            c,
        ));
    }
    while i < n
        invariant
            n == s@.len(),
            0 <= i <= n,
            split_char(s@, c) == views_of(parts@) + prepend_first(
                cur@,
                split_char(s@.skip(i as int), c),
            ),
        decreases n - i,
    {
        let ghost suffix = s@.skip(i as int);
        let ghost rest = split_char(s@.skip(i + 1 as int), c);
        proof {
            lemma_split_nonempty(s@.skip(i + 1 as int), c);
            assert(suffix.drop_first() =~= s@.skip(i + 1 as int));
            assert(suffix[0] == s@[i as int]);
        }
        let ch = s.get_char(i);
        if ch == c {
            proof {
                assert(split_char(suffix, c) == seq![Seq::<char>::empty()] + rest);
                assert(prepend_first(cur@, split_char(suffix, c)) =~~= seq![cur@] + rest);
                assert(prepend_first(Seq::<char>::empty(), rest) =~~= rest);
                assert(views_of(parts@.push(cur)) =~= views_of(parts@).push(cur@));
                assert(views_of(parts@) + prepend_first(cur@, split_char(suffix, c)) =~~= views_of(
                    parts@.push(cur),
                ) + prepend_first(Seq::<char>::empty(), rest));
            }
            parts.push(cur);
            cur = String::new();
        } else {
            proof {
                assert(split_char(suffix, c) == seq![seq![suffix[0]] + rest[0]]
                    + rest.drop_first());
                assert(prepend_first(cur@, split_char(suffix, c)) =~~= prepend_first(
                    cur@ + seq![s@[i as int]],
                    rest,
                ));
                assert(seq![s@[i as int]] =~= s@.subrange(i as int, i + 1 as int));
            }
            let piece = s.substring_char(i, i + 1);
            cur.append(piece);
        }
        i = i + 1;
    }
    proof {
        assert(s@.skip(n as int) =~= Seq::<char>::empty());
        assert(split_char(Seq::<char>::empty(), c) == seq![Seq::<char>::empty()]);
        assert(prepend_first(cur@, seq![Seq::<char>::empty()]) =~~= seq![cur@]);
        assert(views_of(parts@.push(cur)) =~= views_of(parts@).push(cur@));
        assert(views_of(parts@) + seq![cur@] =~= views_of(parts@).push(cur@));
    }
    parts.push(cur);
    proof {
        assert(views_of(parts@) =~= split_char(s@, c));
    }
    parts
}

} // verus!
