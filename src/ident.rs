//! Derives, for each entry, an identifier that is valid in generated code and
//! distinct from those of its siblings.
use crate::embedded_path::{stem_len, stem_of};
use crate::entry_kind::EntryKind;
use crate::text::{
    chars_eq, chars_eq_str, chars_of, contains_chars, push_chars, push_str, rfind, rfind_chars, string_of,
};
use vstd::prelude::*;
use vstd::seq_lib::*;
use vstd::set_lib::*;

verus! {

pub open spec fn is_digit(c: char) -> bool {
    '0' <= c && c <= '9'
}

/// ASCII letters, digits and the underscore.
pub open spec fn is_ident_char(c: char) -> bool {
    ('a' <= c && c <= 'z') || ('A' <= c && c <= 'Z') || is_digit(c) || c == '_'
}

/// Non-empty ASCII identifier text that does not start with a digit.
pub open spec fn is_ascii_ident(s: Seq<char>) -> bool {
    &&& s.len() > 0
    &&& !is_digit(s[0])
    &&& forall|i: int| 0 <= i < s.len() ==> is_ident_char(#[trigger] s[i])
}

/// Keywords and reserved words of the generated code's syntax, and `_`.
pub open spec fn is_reserved(s: Seq<char>) -> bool {
    ||| s == "_"@ || s == "as"@ || s == "async"@ || s == "await"@ || s == "break"@
    ||| s == "const"@ || s == "continue"@ || s == "crate"@ || s == "dyn"@ || s == "else"@
    ||| s == "enum"@ || s == "ext"@ + "ern"@ || s == "false"@ || s == "fn"@ || s == "for"@
    ||| s == "if"@ || s == "impl"@ || s == "in"@ || s == "let"@ || s == "loop"@
    ||| s == "match"@ || s == "mod"@ || s == "move"@ || s == "mut"@ || s == "pub"@
    ||| s == "ref"@ || s == "return"@ || s == "self"@ || s == "Self"@ || s == "static"@
    ||| s == "struct"@ || s == "super"@ || s == "trait"@ || s == "true"@ || s == "type"@
    ||| s == "unsafe"@ || s == "use"@ || s == "where"@ || s == "while"@ || s == "abstract"@
    ||| s == "become"@ || s == "box"@ || s == "do"@ || s == "final"@ || s == "macro"@
    ||| s == "override"@ || s == "priv"@ || s == "typeof"@ || s == "unsized"@ || s == "virtual"@
    ||| s == "yield"@ || s == "try"@ || s == "gen"@
}

/// Each character outside letters, digits and `_` replaced by `_`.
pub open spec fn sanitized(s: Seq<char>) -> Seq<char> {
    s.map_values(|c: char| if is_ident_char(c) { c } else { '_' })
}

/// The identifier of an entry before sibling disambiguation: files go by
/// their stem, directories by their name; the text is sanitized; an empty
/// name, and a file name that is all extension (its only dot leads it, as in
/// `.gitignore`), become the placeholder `_`; a leading digit gets a `_` in
/// front; a reserved word gets a `_` appended (so the placeholder ends as
/// `__`, since `_` alone names nothing).
pub open spec fn base_ident(name: Seq<char>, kind: EntryKind) -> Seq<char> {
    let raw = match kind {
        EntryKind::File => if rfind(name, '.') == 0 {
            seq![]
        } else {
            stem_of(name)
        },
        EntryKind::Dir => name,
    };
    let s = sanitized(raw);
    let s1 = if s.len() == 0 {
        seq!['_']
    } else if is_digit(s[0]) {
        seq!['_'] + s
    } else {
        s
    };
    if is_reserved(s1) {
        s1.push('_')
    } else {
        s1
    }
}

pub open spec fn digit_char(d: nat) -> char {
    if d == 0 { '0' }
    else if d == 1 { '1' }
    else if d == 2 { '2' }
    else if d == 3 { '3' }
    else if d == 4 { '4' }
    else if d == 5 { '5' }
    else if d == 6 { '6' }
    else if d == 7 { '7' }
    else if d == 8 { '8' }
    else { '9' }
}

/// The decimal digits of `n`.
pub open spec fn decimal(n: nat) -> Seq<char>
    decreases n,
{
    if n < 10 {
        seq![digit_char(n)]
    } else {
        decimal(n / 10).push(digit_char(n % 10))
    }
}

/// `base` with the numeric suffix `_k`.
pub open spec fn suffixed(base: Seq<char>, k: nat) -> Seq<char> {
    base + seq!['_'] + decimal(k)
}

/// `k` is the least suffix from 2 on whose candidate is free.
pub open spec fn least_free_suffix(base: Seq<char>, used: Seq<Seq<char>>, k: nat) -> bool {
    &&& k >= 2
    &&& !used.contains(suffixed(base, k))
    &&& forall|j: nat| 2 <= j < k ==> used.contains(#[trigger] suffixed(base, j))
}

/// `base` itself when no earlier sibling took it, else `base` with the least
/// free suffix.
pub open spec fn disambiguated(base: Seq<char>, used: Seq<Seq<char>>) -> Seq<char> {
    if !used.contains(base) {
        base
    } else {
        suffixed(base, choose|k: nat| least_free_suffix(base, used, k))
    }
}

/// The identifiers of siblings in traversal order, each disambiguated against
/// those before it.
pub open spec fn sibling_idents(bases: Seq<Seq<char>>) -> Seq<Seq<char>>
    decreases bases.len(),
{
    if bases.len() == 0 {
        seq![]
    } else {
        let prev = sibling_idents(bases.drop_last());
        prev.push(disambiguated(bases.last(), prev))
    }
}

proof fn lemma_decimal_shape(n: nat)
    ensures
        decimal(n).len() >= 1,
        n < 10 <==> decimal(n).len() == 1,
        forall|i: int| 0 <= i < decimal(n).len() ==> is_digit(#[trigger] decimal(n)[i]),
    decreases n,
{
    if n >= 10 {
        lemma_decimal_shape(n / 10);
        assert forall|i: int| 0 <= i < decimal(n).len() implies is_digit(#[trigger] decimal(n)[i]) by {
            if i < decimal(n).len() - 1 {
                assert(decimal(n)[i] == decimal(n / 10)[i]);
            }
        }
    }
}

proof fn lemma_decimal_injective(a: nat, b: nat)
    requires
        decimal(a) == decimal(b),
    ensures
        a == b,
    decreases a,
{
    lemma_decimal_shape(a);
    lemma_decimal_shape(b);
    if a >= 10 {
        assert(decimal(a / 10) =~= decimal(a).drop_last());
        assert(decimal(b / 10) =~= decimal(b).drop_last());
        lemma_decimal_injective(a / 10, b / 10);
        assert(decimal(a).last() == digit_char(a % 10));
        assert(decimal(b).last() == digit_char(b % 10));
        assert(a % 10 == b % 10);
    } else {
        assert(decimal(a)[0] == digit_char(a));
        assert(decimal(b)[0] == digit_char(b));
    }
}

proof fn lemma_suffixed_injective(base: Seq<char>, a: nat, b: nat)
    requires
        suffixed(base, a) == suffixed(base, b),
    ensures
        a == b,
{
    let n = base.len() + 1;
    assert(suffixed(base, a).subrange(n as int, suffixed(base, a).len() as int) =~= decimal(a));
    assert(suffixed(base, b).subrange(n as int, suffixed(base, b).len() as int) =~= decimal(b));
    lemma_decimal_injective(a, b);
}

pub open spec fn candidates(base: Seq<char>, n: nat) -> Set<Seq<char>> {
    Set::new(|s: Seq<char>| exists|j: nat| 2 <= j < 2 + n && s == suffixed(base, j))
}

proof fn lemma_candidates_len(base: Seq<char>, n: nat)
    ensures
        candidates(base, n).finite(),
        candidates(base, n).len() == n,
    decreases n,
{
    if n == 0 {
        assert(candidates(base, 0) =~= Set::empty());
    } else {
        let m = (n - 1) as nat;
        lemma_candidates_len(base, m);
        let last = suffixed(base, 2 + m);
        assert(candidates(base, n) =~= candidates(base, m).insert(last)) by {
            assert forall|s: Seq<char>| candidates(base, n).contains(s) implies
                candidates(base, m).insert(last).contains(s) by {
                let j = choose|j: nat| 2 <= j < 2 + n && s == suffixed(base, j);
                if j < 2 + m {
                    assert(candidates(base, m).contains(s));
                }
            }
        }
        if candidates(base, m).contains(last) {
            let j = choose|j: nat| 2 <= j < 2 + m && last == suffixed(base, j);
            lemma_suffixed_injective(base, j, 2 + m);
        }
    }
}

/// When `base` and every candidate from 2 to `k` are taken, there are at
/// least `k` identifiers taken.
proof fn lemma_taken_bound(base: Seq<char>, used: Seq<Seq<char>>, k: nat)
    requires
        k >= 2,
        used.contains(base),
        forall|j: nat| 2 <= j <= k ==> used.contains(#[trigger] suffixed(base, j)),
    ensures
        k <= used.len(),
{
    let n = (k - 1) as nat;
    lemma_candidates_len(base, n);
    let all = candidates(base, n).insert(base);
    assert(!candidates(base, n).contains(base)) by {
        if candidates(base, n).contains(base) {
            let j = choose|j: nat| 2 <= j < 2 + n && base == suffixed(base, j);
            assert(suffixed(base, j).len() > base.len());
        }
    }
    assert(all.subset_of(used.to_set())) by {
        assert forall|s: Seq<char>| all.contains(s) implies used.to_set().contains(s) by {
            if s != base {
                let j = choose|j: nat| 2 <= j < 2 + n && s == suffixed(base, j);
                assert(used.contains(suffixed(base, j)));
            }
        }
    }
    used.lemma_cardinality_of_set();
    lemma_len_subset(all, used.to_set());
}

proof fn lemma_least_free_exists(base: Seq<char>, used: Seq<Seq<char>>, k: nat)
    requires
        2 <= k,
        forall|j: nat| 2 <= j < k ==> used.contains(#[trigger] suffixed(base, j)),
    ensures
        exists|m: nat| least_free_suffix(base, used, m),
    decreases used.len() + 2 - k,
{
    if !used.contains(suffixed(base, k)) {
        assert(least_free_suffix(base, used, k));
    } else if !used.contains(base) {
        let u = used.push(base);
        assert(u[used.len() as int] == base);
        assert forall|j: nat| 2 <= j <= k implies u.contains(#[trigger] suffixed(base, j)) by {
            let x = suffixed(base, j);
            let p = choose|p: int| 0 <= p < used.len() && used[p] == x;
            assert(u[p] == x);
        }
        lemma_taken_bound(base, u, k);
        lemma_least_free_exists(base, used, k + 1);
    } else {
        lemma_taken_bound(base, used, k);
        lemma_least_free_exists(base, used, k + 1);
    }
}

proof fn lemma_least_free_unique(base: Seq<char>, used: Seq<Seq<char>>, a: nat, b: nat)
    requires
        least_free_suffix(base, used, a),
        least_free_suffix(base, used, b),
    ensures
        a == b,
{
    if a < b {
        assert(used.contains(suffixed(base, a)));
    } else if b < a {
        assert(used.contains(suffixed(base, b)));
    }
}

/// The disambiguated identifier is free among the earlier siblings.
pub proof fn lemma_disambiguated_free(base: Seq<char>, used: Seq<Seq<char>>)
    ensures
        !used.contains(disambiguated(base, used)),
        is_ascii_ident(base) ==> is_ascii_ident(disambiguated(base, used)),
{
    if used.contains(base) {
        lemma_least_free_exists(base, used, 2);
        let k = choose|k: nat| least_free_suffix(base, used, k);
        lemma_decimal_shape(k);
        let s = suffixed(base, k);
        if is_ascii_ident(base) {
            assert forall|i: int| 0 <= i < s.len() implies is_ident_char(#[trigger] s[i]) by {
                if i >= base.len() + 1 {
                    assert(s[i] == decimal(k)[i - base.len() - 1]);
                } else if i < base.len() {
                    assert(s[i] == base[i]);
                }
            }
            assert(s[0] == base[0]);
        }
    }
}

/// The identifiers of siblings are pairwise distinct, and valid wherever the
/// identifiers they derive from are.
pub proof fn lemma_sibling_idents_distinct(bases: Seq<Seq<char>>)
    ensures
        sibling_idents(bases).len() == bases.len(),
        sibling_idents(bases).no_duplicates(),
        (forall|i: int| 0 <= i < bases.len() ==> is_ascii_ident(#[trigger] bases[i])) ==>
            (forall|i: int| 0 <= i < bases.len() ==> is_ascii_ident(#[trigger] sibling_idents(bases)[i])),
    decreases bases.len(),
{
    if bases.len() > 0 {
        let prev = sibling_idents(bases.drop_last());
        lemma_sibling_idents_distinct(bases.drop_last());
        lemma_disambiguated_free(bases.last(), prev);
        if forall|i: int| 0 <= i < bases.len() ==> is_ascii_ident(#[trigger] bases[i]) {
            assert forall|i: int| 0 <= i < bases.len() - 1 implies is_ascii_ident(#[trigger] bases.drop_last()[i]) by {
                assert(bases.drop_last()[i] == bases[i]);
            }
            assert(is_ascii_ident(bases[bases.len() - 1]));
        }
    }
}

/// The identifier of a sibling depends only on the siblings up to it in
/// traversal order: renaming a later sibling never changes it.
pub proof fn lemma_earlier_ident_stable(b1: Seq<Seq<char>>, b2: Seq<Seq<char>>, i: int)
    requires
        0 <= i < b1.len(),
        i < b2.len(),
        b1.take(i + 1) == b2.take(i + 1),
    ensures
        sibling_idents(b1)[i] == sibling_idents(b2)[i],
{
    lemma_sibling_idents_distinct(b1);
    lemma_sibling_idents_distinct(b2);
    lemma_idents_prefix(b1, i + 1);
    lemma_idents_prefix(b2, i + 1);
    assert(sibling_idents(b1).take(i + 1)[i] == sibling_idents(b1)[i]);
    assert(sibling_idents(b2).take(i + 1)[i] == sibling_idents(b2)[i]);
}

proof fn lemma_idents_prefix(b: Seq<Seq<char>>, n: int)
    requires
        0 <= n <= b.len(),
    ensures
        sibling_idents(b.take(n)) == sibling_idents(b).take(n),
    decreases b.len(),
{
    lemma_sibling_idents_distinct(b);
    if n < b.len() {
        assert(b.drop_last().take(n) =~= b.take(n));
        lemma_idents_prefix(b.drop_last(), n);
        lemma_sibling_idents_distinct(b.drop_last());
        assert(sibling_idents(b).take(n) =~= sibling_idents(b.drop_last()).take(n));
    } else {
        assert(b.take(n) =~= b);
        assert(sibling_idents(b).take(n) =~= sibling_idents(b));
    }
}

/// The identifier derived from a name is valid identifier text.
pub proof fn lemma_base_ident_valid(name: Seq<char>, kind: EntryKind)
    ensures
        is_ascii_ident(base_ident(name, kind)),
{
    let raw = match kind {
        EntryKind::File => if rfind(name, '.') == 0 {
            seq![]
        } else {
            stem_of(name)
        },
        EntryKind::Dir => name,
    };
    let s = sanitized(raw);
    assert forall|i: int| 0 <= i < s.len() implies is_ident_char(#[trigger] s[i]) by {}
    let s1 = if s.len() == 0 {
        seq!['_']
    } else if is_digit(s[0]) {
        seq!['_'] + s
    } else {
        s
    };
    assert forall|i: int| 0 <= i < s1.len() implies is_ident_char(#[trigger] s1[i]) by {
        if s.len() > 0 && is_digit(s[0]) && i > 0 {
            assert(s1[i] == s[i - 1]);
        }
    }
    let r = base_ident(name, kind);
    assert forall|i: int| 0 <= i < r.len() implies is_ident_char(#[trigger] r[i]) by {
        if i < s1.len() {
            assert(r[i] == s1[i]);
        }
    }
    assert(r[0] == s1[0]);
}

pub open spec fn char_views(v: Seq<Vec<char>>) -> Seq<Seq<char>> {
    v.map_values(|x: Vec<char>| x@)
}

/// The bases of entries given by name and kind, in order.
pub open spec fn bases_of(names: Seq<Seq<char>>, kinds: Seq<EntryKind>) -> Seq<Seq<char>> {
    Seq::new(names.len(), |i: int| base_ident(names[i], kinds[i]))
}

/// The stem of a file name.
pub fn stem_chars(name: &Vec<char>) -> (r: Vec<char>)
    ensures
        r@ == stem_of(name@),
{
    let k = stem_len(name);
    let mut r: Vec<char> = Vec::new();
    let mut i: usize = 0;
    while i < k
        invariant
            k <= name@.len(),
            i <= k,
            r@ == name@.subrange(0, i as int),
        decreases k - i,
    {
        r.push(name[i]);
        i = i + 1;
        assert(r@ =~= name@.subrange(0, i as int));
    }
    r
}

fn is_ident_char_exec(c: char) -> (r: bool)
    ensures
        r == is_ident_char(c),
{
    ('a' <= c && c <= 'z') || ('A' <= c && c <= 'Z') || ('0' <= c && c <= '9') || c == '_'
}

fn is_reserved_chars(s: &Vec<char>) -> (r: bool)
    ensures
        r == is_reserved(s@),
{
    let mut ext_ern = chars_of("ext");
    push_str(&mut ext_ern, "ern");
    chars_eq_str(s, "_") || chars_eq_str(s, "as") || chars_eq_str(s, "async") || chars_eq_str(s, "await")
        || chars_eq_str(s, "break") || chars_eq_str(s, "const") || chars_eq_str(s, "continue")
        || chars_eq_str(s, "crate") || chars_eq_str(s, "dyn") || chars_eq_str(s, "else")
        || chars_eq_str(s, "enum") || chars_eq(s, &ext_ern) || chars_eq_str(s, "false")
        || chars_eq_str(s, "fn") || chars_eq_str(s, "for") || chars_eq_str(s, "if")
        || chars_eq_str(s, "impl") || chars_eq_str(s, "in") || chars_eq_str(s, "let")
        || chars_eq_str(s, "loop") || chars_eq_str(s, "match") || chars_eq_str(s, "mod")
        || chars_eq_str(s, "move") || chars_eq_str(s, "mut") || chars_eq_str(s, "pub")
        || chars_eq_str(s, "ref") || chars_eq_str(s, "return") || chars_eq_str(s, "self")
        || chars_eq_str(s, "Self") || chars_eq_str(s, "static") || chars_eq_str(s, "struct")
        || chars_eq_str(s, "super") || chars_eq_str(s, "trait") || chars_eq_str(s, "true")
        || chars_eq_str(s, "type") || chars_eq_str(s, "unsafe") || chars_eq_str(s, "use")
        || chars_eq_str(s, "where") || chars_eq_str(s, "while") || chars_eq_str(s, "abstract")
        || chars_eq_str(s, "become") || chars_eq_str(s, "box") || chars_eq_str(s, "do")
        || chars_eq_str(s, "final") || chars_eq_str(s, "macro") || chars_eq_str(s, "override")
        || chars_eq_str(s, "priv") || chars_eq_str(s, "typeof") || chars_eq_str(s, "unsized")
        || chars_eq_str(s, "virtual") || chars_eq_str(s, "yield") || chars_eq_str(s, "try")
        || chars_eq_str(s, "gen")
}

/// The identifier of an entry before sibling disambiguation.
pub fn base_identifier(name: &Vec<char>, kind: EntryKind) -> (r: Vec<char>)
    ensures
        r@ == base_ident(name@, kind),
{
    let raw = match kind {
        EntryKind::File => if rfind_chars(name, '.') == 1 {
            Vec::new()
        } else {
            stem_chars(name)
        },
        EntryKind::Dir => name.clone(),
    };
    let mut s: Vec<char> = Vec::new();
    let mut i: usize = 0;
    while i < raw.len()
        invariant
            i <= raw@.len(),
            s@ == sanitized(raw@.subrange(0, i as int)),
        decreases raw@.len() - i,
    {
        let c = raw[i];
        if is_ident_char_exec(c) {
            s.push(c);
        } else {
            s.push('_');
        }
        i = i + 1;
        assert(s@ =~= sanitized(raw@.subrange(0, i as int)));
    }
    assert(raw@.subrange(0, raw@.len() as int) =~= raw@);
    let mut s1: Vec<char> = Vec::new();
    if s.len() == 0 {
        s1.push('_');
        assert(s1@ =~= seq!['_']);
    } else if '0' <= s[0] && s[0] <= '9' {
        s1.push('_');
        push_chars(&mut s1, &s);
        assert(s1@ =~= seq!['_'] + s@);
    } else {
        s1 = s;
    }
    if is_reserved_chars(&s1) {
        s1.push('_');
    }
    s1
}

/// Appends the decimal digits of `n` to `out`.
fn push_decimal(out: &mut Vec<char>, n: usize)
    ensures
        final(out)@ == old(out)@ + decimal(n as nat),
    decreases n,
{
    if n >= 10 {
        push_decimal(out, n / 10);
    }
    let d = n % 10;
    let c = if d == 0 { '0' } else if d == 1 { '1' } else if d == 2 { '2' } else if d == 3 { '3' }
        else if d == 4 { '4' } else if d == 5 { '5' } else if d == 6 { '6' } else if d == 7 { '7' }
        else if d == 8 { '8' } else { '9' };
    out.push(c);
    assert(final(out)@ =~= old(out)@ + decimal(n as nat)) by {
        if n < 10 {
            assert(n as nat % 10 == n as nat);
        }
    }
}

fn suffixed_chars(base: &Vec<char>, k: usize) -> (r: Vec<char>)
    ensures
        r@ == suffixed(base@, k as nat),
{
    let mut r = base.clone();
    r.push('_');
    push_decimal(&mut r, k);
    r
}

/// `base`, or `base` with its least free numeric suffix when an earlier
/// sibling took it.
pub fn disambiguate(base: Vec<char>, used: &Vec<Vec<char>>) -> (r: Vec<char>)
    requires
        used@.len() < usize::MAX,
    ensures
        r@ == disambiguated(base@, char_views(used@)),
{
    let ghost views = char_views(used@);
    if !contains_chars(used, &base) {
        return base;
    }
    let mut k: usize = 2;
    let mut cand = suffixed_chars(&base, k);
    while contains_chars(used, &cand)
        invariant
            views == char_views(used@),
            used@.len() < usize::MAX,
            views.contains(base@),
            2 <= k <= views.len() + 1,
            cand@ == suffixed(base@, k as nat),
            forall|j: nat| 2 <= j < k ==> views.contains(#[trigger] suffixed(base@, j)),
        decreases views.len() + 2 - k,
    {
        proof {
            lemma_taken_bound(base@, views, k as nat);
        }
        k = k + 1;
        cand = suffixed_chars(&base, k);
    }
    proof {
        assert(least_free_suffix(base@, views, k as nat));
        let m = choose|m: nat| least_free_suffix(base@, views, m);
        lemma_least_free_unique(base@, views, k as nat, m);
    }
    cand
}

/// The identifiers of siblings given in traversal order by name and kind:
/// each is the entry's base identifier, disambiguated against the siblings
/// before it.
pub fn derive_identifiers(entries: &Vec<(String, EntryKind)>) -> (r: Vec<String>)
    ensures
        r@.map_values(|x: String| x@) == sibling_idents(
            bases_of(entries@.map_values(|e: (String, EntryKind)| e.0@), entries@.map_values(|e: (String, EntryKind)| e.1)),
        ),
{
    let ghost bases = bases_of(
        entries@.map_values(|e: (String, EntryKind)| e.0@),
        entries@.map_values(|e: (String, EntryKind)| e.1),
    );
    let mut used: Vec<Vec<char>> = Vec::new();
    let mut r: Vec<String> = Vec::new();
    let mut i: usize = 0;
    while i < entries.len()
        invariant
            bases == bases_of(
                entries@.map_values(|e: (String, EntryKind)| e.0@),
                entries@.map_values(|e: (String, EntryKind)| e.1),
            ),
            i <= entries@.len(),
            used@.len() == i,
            char_views(used@) == sibling_idents(bases.take(i as int)),
            r@.map_values(|x: String| x@) == char_views(used@),
        decreases entries@.len() - i,
    {
        let name = chars_of(entries[i].0.as_str());
        let b = base_identifier(&name, entries[i].1);
        let id = disambiguate(b, &used);
        let s = string_of(&id);
        proof {
            assert(bases.take(i + 1).drop_last() =~= bases.take(i as int));
            assert(bases.take(i + 1).last() == b@);
        }
        used.push(id);
        r.push(s);
        proof {
            assert(char_views(used@) =~= sibling_idents(bases.take(i + 1)));
            assert(r@.map_values(|x: String| x@) =~= char_views(used@));
        }
        i = i + 1;
    }
    proof {
        assert(bases.take(i as int) =~= bases);
    }
    r
}

} // verus!
