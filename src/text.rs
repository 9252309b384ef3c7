use vstd::prelude::*;
use vstd::string::StringExecFns;
use vstd::string::StrSliceExecFns;
use core::cmp::Ordering;

verus! {

/// Strict lexicographic order of two texts, comparing characters by code point.
/// This is the order in which `String`s compare in Rust.
pub open spec fn lex_lt(a: Seq<char>, b: Seq<char>) -> bool
    decreases a.len(),
{
    if a.len() == 0 {
        b.len() > 0
    } else if b.len() == 0 {
        false
    } else if a[0] != b[0] {
        (a[0] as int) < (b[0] as int)
    } else {
        lex_lt(a.drop_first(), b.drop_first())
    }
}

pub proof fn lemma_lex_irreflexive(a: Seq<char>)
    ensures
        !lex_lt(a, a),
    decreases a.len(),
{
    if a.len() > 0 {
        lemma_lex_irreflexive(a.drop_first());
    }
}

/// Two different texts are ordered one way or the other, never both.
pub proof fn lemma_lex_total(a: Seq<char>, b: Seq<char>)
    ensures
        a != b ==> (lex_lt(a, b) || lex_lt(b, a)),
        !(lex_lt(a, b) && lex_lt(b, a)),
        lex_lt(a, b) ==> a != b,
    decreases a.len(),
{
    if a.len() > 0 && b.len() > 0 {
        lemma_lex_total(a.drop_first(), b.drop_first());
        if a[0] == b[0] && a.drop_first() == b.drop_first() {
            assert(a =~= seq![a[0]] + a.drop_first());
            assert(b =~= seq![b[0]] + b.drop_first());
        }
    } else if a.len() == 0 && b.len() == 0 {
        assert(a =~= b);
    }
}

pub proof fn lemma_lex_transitive(a: Seq<char>, b: Seq<char>, c: Seq<char>)
    requires
        lex_lt(a, b),
        lex_lt(b, c),
    ensures
        lex_lt(a, c),
    decreases a.len(),
{
    if a.len() > 0 && b.len() > 0 && c.len() > 0 {
        if a[0] == b[0] && b[0] == c[0] {
            lemma_lex_transitive(a.drop_first(), b.drop_first(), c.drop_first());
        }
    }
}

/// Texts that agree on their first `i` characters compare as what follows.
proof fn lemma_lex_common_prefix(a: Seq<char>, b: Seq<char>, i: int)
    requires
        0 <= i <= a.len(),
        i <= b.len(),
        a.take(i) == b.take(i),
    ensures
        lex_lt(a, b) == lex_lt(a.skip(i), b.skip(i)),
    decreases i,
{
    if i > 0 {
        assert(a[0] == a.take(i)[0]);
        assert(b[0] == b.take(i)[0]);
        assert(a.drop_first().take(i - 1) =~= a.take(i).drop_first());
        assert(b.drop_first().take(i - 1) =~= b.take(i).drop_first());
        lemma_lex_common_prefix(a.drop_first(), b.drop_first(), i - 1);
        assert(a.drop_first().skip(i - 1) =~= a.skip(i));
        assert(b.drop_first().skip(i - 1) =~= b.skip(i));
    } else {
        assert(a.skip(0) =~= a);
        assert(b.skip(0) =~= b);
    }
}

/// The characters of `s`, in order.
pub fn chars_of(s: &str) -> (r: Vec<char>)
    ensures
        r@ == s@,
{
    let mut r: Vec<char> = Vec::new();
    for c in it: s.chars()
        invariant
            r@ == it.seq().take(it.index() as int),
            it.seq() == s@,
    {
        r.push(c);
    }
    r
}

/// Compares two texts in lexicographic order.
pub fn compare_text(a: &str, b: &str) -> (r: Ordering)
    ensures
        (r == Ordering::Less) == lex_lt(a@, b@),
        (r == Ordering::Equal) == (a@ == b@),
        (r == Ordering::Greater) == lex_lt(b@, a@),
{
    let x = chars_of(a);
    let y = chars_of(b);
    proof {
        lemma_lex_total(a@, b@);
        lemma_lex_irreflexive(a@);
    }
    let mut i: usize = 0;
    while i < x.len() && i < y.len()
        invariant
            i <= x.len(),
            i <= y.len(),
            x@ == a@,
            y@ == b@,
            x@.take(i as int) == y@.take(i as int),
        decreases x.len() - i,
    {
        if x[i] != y[i] {
            proof {
                lemma_lex_common_prefix(a@, b@, i as int);
                lemma_lex_common_prefix(b@, a@, i as int);
                assert(a@.skip(i as int)[0] == x@[i as int]);
                assert(b@.skip(i as int)[0] == y@[i as int]);
            }
            if x[i] < y[i] {
                return Ordering::Less;
            } else {
                return Ordering::Greater;
            }
        }
        assert(x@.take(i + 1) =~= x@.take(i as int).push(x@[i as int]));
        assert(y@.take(i + 1) =~= y@.take(i as int).push(y@[i as int]));
        i = i + 1;
    }
    proof {
        lemma_lex_common_prefix(a@, b@, i as int);
        lemma_lex_common_prefix(b@, a@, i as int);
    }
    if x.len() < y.len() {
        Ordering::Less
    } else if x.len() == y.len() {
        assert(x@ =~= x@.take(i as int));
        assert(y@ =~= y@.take(i as int));
        Ordering::Equal
    } else {
        Ordering::Greater
    }
}

/// Whether two texts are equal.
pub fn text_eq(a: &str, b: &str) -> (r: bool)
    ensures
        r == (a@ == b@),
{
    match compare_text(a, b) {
        Ordering::Equal => true,
        _ => false,
    }
}

/// Whether `prefix` is a prefix of `s`.
pub open spec fn has_prefix(s: Seq<char>, prefix: Seq<char>) -> bool {
    prefix.len() <= s.len() && s.take(prefix.len() as int) == prefix
}

/// Whether `s` begins with `prefix`.
pub fn starts_with(s: &str, prefix: &str) -> (r: bool)
    ensures
        r == has_prefix(s@, prefix@),
{
    let x = chars_of(s);
    let p = chars_of(prefix);
    if p.len() > x.len() {
        return false;
    }
    let mut i: usize = 0;
    while i < p.len()
        invariant
            i <= p.len() <= x.len(),
            x@ == s@,
            p@ == prefix@,
            x@.take(i as int) == p@.take(i as int),
        decreases p.len() - i,
    {
        if x[i] != p[i] {
            assert(x@.take(p.len() as int)[i as int] == x@[i as int]);
            return false;
        }
        assert(x@.take(i + 1) =~= x@.take(i as int).push(x@[i as int]));
        assert(p@.take(i + 1) =~= p@.take(i as int).push(p@[i as int]));
        i = i + 1;
    }
    assert(p@.take(i as int) =~= p@);
    true
}

/// Two `c` characters in a row at position `i`.
pub open spec fn pair_at(s: Seq<char>, i: int, c: char) -> bool {
    0 <= i && i + 1 < s.len() && s[i] == c && s[i + 1] == c
}

/// The first position from `from` on where two `c` characters stand in a row.
pub open spec fn find_pair(s: Seq<char>, from: int, c: char) -> Option<int>
    decreases s.len() - from,
{
    if from < 0 || from + 1 >= s.len() {
        None
    } else if pair_at(s, from, c) {
        Some(from)
    } else {
        find_pair(s, from + 1, c)
    }
}

/// A pattern is variable when it holds a marker: `{{`, later followed by `}}`.
pub open spec fn is_variable(s: Seq<char>) -> bool {
    exists|i: int, j: int| i + 2 <= j && #[trigger] pair_at(s, i, '{') && #[trigger] pair_at(s, j, '}')
}

pub proof fn lemma_find_pair(s: Seq<char>, from: int, c: char)
    requires
        0 <= from,
    ensures
        match find_pair(s, from, c) {
            Some(k) => from <= k && pair_at(s, k, c) && forall|m: int|
                from <= m < k ==> !#[trigger] pair_at(s, m, c),
            None => forall|m: int| from <= m ==> !#[trigger] pair_at(s, m, c),
        },
    decreases s.len() - from,
{
    if from + 1 < s.len() && !pair_at(s, from, c) {
        lemma_find_pair(s, from + 1, c);
    }
}

/// The first position from `from` on where two `c` characters stand in a row.
pub fn find_pair_from(v: &Vec<char>, from: usize, c: char) -> (r: Option<usize>)
    ensures
        match r {
            Some(k) => find_pair(v@, from as int, c) == Some(k as int),
            None => find_pair(v@, from as int, c) is None,
        },
{
    let mut i: usize = from;
    while i < v.len() && i + 1 < v.len()
        invariant
            from <= i,
            find_pair(v@, from as int, c) == find_pair(v@, i as int, c),
        decreases v.len() - i,
    {
        if v[i] == c && v[i + 1] == c {
            return Some(i);
        }
        i = i + 1;
    }
    None
}

/// `s` with every occurrence of `pat` replaced by `sub`, scanning from the
/// left and resuming after each replaced occurrence.
pub open spec fn replace_all(s: Seq<char>, pat: Seq<char>, sub: Seq<char>) -> Seq<char>
    decreases s.len(),
{
    if pat.len() == 0 || s.len() < pat.len() {
        s
    } else if s.take(pat.len() as int) == pat {
        sub + replace_all(s.skip(pat.len() as int), pat, sub)
    } else {
        seq![s[0]] + replace_all(s.skip(1), pat, sub)
    }
}

/// Whether `p` stands in `v` at position `i`.
fn matches_at(v: &Vec<char>, i: usize, p: &Vec<char>) -> (r: bool)
    requires
        i <= v@.len(),
        p@.len() <= v@.len() - i,
    ensures
        r == (v@.subrange(i as int, i + p@.len()) == p@),
{
    let mut j: usize = 0;
    while j < p.len()
        invariant
            j <= p@.len(),
            i <= v@.len(),
            p@.len() <= v@.len() - i,
            v@.subrange(i as int, i + j) == p@.take(j as int),
        decreases p.len() - j,
    {
        assert(i + j < v.len());
        if v[i + j] != p[j] {
            assert(v@.subrange(i as int, i + p@.len())[j as int] == v@[i + j]);
            return false;
        }
        assert(v@.subrange(i as int, i + j + 1) =~= v@.subrange(i as int, i + j).push(v@[i + j]));
        assert(p@.take(j + 1) =~= p@.take(j as int).push(p@[j as int]));
        j = j + 1;
    }
    assert(p@.take(j as int) =~= p@);
    true
}

/// Replaces every occurrence of `variable` in `value` by `substitution`.
pub fn replace(value: &str, variable: &str, substitution: &str) -> (r: String)
    requires
        variable@.len() > 0,
    ensures
        r@ == replace_all(value@, variable@, substitution@),
{
    let v = chars_of(value);
    let p = chars_of(variable);
    let ghost pat = p@;
    let ghost sub = substitution@;
    let ghost target = replace_all(v@, pat, sub);
    let n = v.len();
    let m = p.len();
    let mut result = String::new();
    let mut last: usize = 0;
    let mut i: usize = 0;
    assert(v@.skip(0) =~= v@);
    assert(result@ + v@.subrange(0, 0) + replace_all(v@.skip(0), pat, sub) =~= target);
    while m <= n - i
        invariant
            last <= i <= n,
            n == v@.len(),
            m == p@.len(),
            m > 0,
            v@ == value@,
            p@ == pat,
            sub == substitution@,
            target == replace_all(v@, pat, sub),
            result@ + v@.subrange(last as int, i as int) + replace_all(v@.skip(i as int), pat, sub)
                == target,
        decreases n - i,
    {
        let ghost rest = v@.skip(i as int);
        assert(rest.take(m as int) =~= v@.subrange(i as int, i + m));
        if matches_at(&v, i, &p) {
            assert(rest.skip(m as int) =~= v@.skip(i + m));
            assert(replace_all(rest, pat, sub) == sub + replace_all(rest.skip(m as int), pat, sub));
            let ghost before = result@;
            let ghost old_last = last;
            let ghost old_i = i;
            result.append(value.substring_char(last, i));
            result.append(substitution);
            assert(result@ =~= before + v@.subrange(last as int, i as int) + sub);
            i = i + m;
            last = i;
            assert(result@ + v@.subrange(last as int, i as int) + replace_all(v@.skip(i as int), pat, sub)
                =~= before + v@.subrange(old_last as int, old_i as int) + replace_all(rest, pat, sub));
        } else {
            assert(rest.skip(1) =~= v@.skip(i + 1));
            assert(rest[0] == v@[i as int]);
            assert(v@.subrange(last as int, i + 1) =~= v@.subrange(last as int, i as int).push(v@[i as int]));
            assert(result@ + v@.subrange(last as int, i + 1) + replace_all(v@.skip(i + 1), pat, sub)
                =~= result@ + v@.subrange(last as int, i as int) + (seq![rest[0]] + replace_all(rest.skip(1), pat, sub)));
            i = i + 1;
        }
    }
    assert(replace_all(v@.skip(i as int), pat, sub) == v@.skip(i as int));
    let ghost before = result@;
    result.append(value.substring_char(last, n));
    assert(v@.subrange(last as int, n as int) =~= v@.subrange(last as int, i as int) + v@.skip(i as int));
    assert(result@ =~= before + v@.subrange(last as int, i as int) + v@.skip(i as int));
    result
}

} // verus!
