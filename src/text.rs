//! Character-level helpers shared by the path splitter, the identifier
//! deriver and the code synthesizer.
use vstd::prelude::*;
use vstd::string::*;

verus! {

/// Position of the last occurrence of `c` in `s`, or -1 when it does not occur.
pub open spec fn rfind(s: Seq<char>, c: char) -> int
    decreases s.len(),
{
    if s.len() == 0 {
        -1
    } else if s.last() == c {
        s.len() - 1
    } else {
        rfind(s.drop_last(), c)
    }
}

pub proof fn lemma_rfind_bounds(s: Seq<char>, c: char)
    ensures
        -1 <= rfind(s, c) < s.len(),
        rfind(s, c) >= 0 ==> s[rfind(s, c)] == c,
        forall|i: int| rfind(s, c) < i < s.len() ==> s[i] != c,
    decreases s.len(),
{
    if s.len() > 0 && s.last() != c {
        lemma_rfind_bounds(s.drop_last(), c);
        assert forall|i: int| rfind(s, c) < i < s.len() implies s[i] != c by {
            if i < s.len() - 1 {
                assert(s[i] == s.drop_last()[i]);
            }
        }
    }
}

/// `rfind` finds nothing exactly when `c` does not occur.
pub proof fn lemma_rfind_absent(s: Seq<char>, c: char)
    ensures
        rfind(s, c) == -1 <==> !s.contains(c),
{
    lemma_rfind_bounds(s, c);
    if s.contains(c) {
        let i = choose|i: int| 0 <= i < s.len() && s[i] == c;
    }
}

/// One past the position of the last `c` in `s`, or 0 when there is none.
pub fn rfind_chars(s: &Vec<char>, c: char) -> (r: usize)
    ensures
        r == rfind(s@, c) + 1,
{
    let mut i: usize = s.len();
    assert(s@.subrange(0, i as int) =~= s@);
    while i > 0
        invariant
            i <= s@.len(),
            rfind(s@, c) == rfind(s@.subrange(0, i as int), c),
        decreases i,
    {
        if s[i - 1] == c {
            return i;
        }
        assert(s@.subrange(0, i as int).drop_last() =~= s@.subrange(0, i - 1));
        i = i - 1;
    }
    0
}

/// Appending text free of `c` does not move the last `c`.
pub proof fn lemma_rfind_append(x: Seq<char>, y: Seq<char>, c: char)
    requires
        !y.contains(c),
    ensures
        rfind(x + y, c) == rfind(x, c),
    decreases y.len(),
{
    if y.len() > 0 {
        assert((x + y).drop_last() =~= x + y.drop_last());
        assert((x + y).last() == y.last());
        if y.drop_last().contains(c) {
            let i = choose|i: int| 0 <= i < y.drop_last().len() && y.drop_last()[i] == c;
            assert(y[i] == c);
        }
        lemma_rfind_append(x, y.drop_last(), c);
    } else {
        assert(x + y =~= x);
    }
}

/// The characters of `s`, in order.
pub fn chars_of(s: &str) -> (r: Vec<char>)
    ensures
        r@ == s@,
{
    let n = s.unicode_len();
    let mut r: Vec<char> = Vec::new();
    let mut i: usize = 0;
    while i < n
        invariant
            n == s@.len(),
            i <= n,
            r@ == s@.subrange(0, i as int),
        decreases n - i,
    {
        r.push(s.get_char(i));
        i = i + 1;
    }
    assert(r@ =~= s@);
    r
}

/// Appends the characters of `s` to `out`.
pub fn push_str(out: &mut Vec<char>, s: &str)
    ensures
        final(out)@ == old(out)@ + s@,
{
    let n = s.unicode_len();
    let mut i: usize = 0;
    while i < n
        invariant
            n == s@.len(),
            i <= n,
            out@ == old(out)@ + s@.subrange(0, i as int),
        decreases n - i,
    {
        out.push(s.get_char(i));
        i = i + 1;
        assert(out@ =~= old(out)@ + s@.subrange(0, i as int));
    }
    assert(s@.subrange(0, n as int) =~= s@);
}

/// Appends the characters of `v` to `out`.
pub fn push_chars(out: &mut Vec<char>, v: &Vec<char>)
    ensures
        final(out)@ == old(out)@ + v@,
{
    let mut i: usize = 0;
    while i < v.len()
        invariant
            i <= v@.len(),
            out@ == old(out)@ + v@.subrange(0, i as int),
        decreases v@.len() - i,
    {
        out.push(v[i]);
        i = i + 1;
        assert(out@ =~= old(out)@ + v@.subrange(0, i as int));
    }
    assert(v@.subrange(0, v@.len() as int) =~= v@);
}

/// Whether two character sequences are equal.
pub fn chars_eq(a: &Vec<char>, b: &Vec<char>) -> (r: bool)
    ensures
        r == (a@ == b@),
{
    if a.len() != b.len() {
        return false;
    }
    let mut i: usize = 0;
    while i < a.len()
        invariant
            a@.len() == b@.len(),
            i <= a@.len(),
            forall|j: int| 0 <= j < i ==> a@[j] == b@[j],
        decreases a@.len() - i,
    {
        if a[i] != b[i] {
            return false;
        }
        i = i + 1;
    }
    assert(a@ =~= b@);
    true
}

/// Whether `a` spells exactly the text `s`.
pub fn chars_eq_str(a: &Vec<char>, s: &str) -> (r: bool)
    ensures
        r == (a@ == s@),
{
    let b = chars_of(s);
    chars_eq(a, &b)
}

/// Whether `v` occurs among the elements of `vs`.
pub fn contains_chars(vs: &Vec<Vec<char>>, v: &Vec<char>) -> (r: bool)
    ensures
        r == vs@.map_values(|x: Vec<char>| x@).contains(v@),
{
    let ghost views = vs@.map_values(|x: Vec<char>| x@);
    let mut i: usize = 0;
    while i < vs.len()
        invariant
            i <= vs@.len(),
            views == vs@.map_values(|x: Vec<char>| x@),
            forall|j: int| 0 <= j < i ==> views[j] != v@,
        decreases vs@.len() - i,
    {
        if chars_eq(&vs[i], v) {
            assert(views[i as int] == v@);
            return true;
        }
        i = i + 1;
    }
    false
}

/// Relies on `String`'s `FromIterator<&char>`: collecting characters keeps them in order.
#[verifier::external_body]
pub fn string_of(v: &Vec<char>) -> (r: String)
    ensures
        r@ == v@,
{
    v.iter().collect()
}

} // verus!
