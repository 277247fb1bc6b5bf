use vstd::prelude::*;
use vstd::string::*;

verus! {

/// Copies the characters of a string slice into a vector.
pub fn chars_of(s: &str) -> (v: Vec<char>)
    ensures
        v@ == s@,
{
    let n = s.unicode_len();
    let mut v: Vec<char> = Vec::new();
    let mut i: usize = 0;
    while i < n
        invariant
            n == s@.len(),
            i <= n,
            v@ == s@.subrange(0, i as int),
        decreases n - i,
    {
        let c = s.get_char(i);
        v.push(c);
        i = i + 1;
    }
    v
}

/// Strict lexicographic order on character sequences, by code point.
pub open spec fn seq_lt(a: Seq<char>, b: Seq<char>) -> bool
    decreases a.len(),
{
    if a.len() == 0 {
        b.len() > 0
    } else if b.len() == 0 {
        false
    } else if a[0] < b[0] {
        true
    } else if a[0] == b[0] {
        seq_lt(a.drop_first(), b.drop_first())
    } else {
        false
    }
}

/// Compares two strings in the order that `String`'s `Ord` uses.
pub fn str_lt(a: &str, b: &str) -> (r: bool)
    ensures
        r == seq_lt(a@, b@),
{
    let av = chars_of(a);
    let bv = chars_of(b);
    let mut i: usize = 0;
    assert(av@.subrange(0, av@.len() as int) == av@);
    assert(bv@.subrange(0, bv@.len() as int) == bv@);
    while i < av.len() && i < bv.len()
        invariant
            av@ == a@,
            bv@ == b@,
            i <= av@.len(),
            i <= bv@.len(),
            av@.subrange(0, i as int) == bv@.subrange(0, i as int),
            seq_lt(av@, bv@) == seq_lt(av@.subrange(i as int, av@.len() as int), bv@.subrange(i as int, bv@.len() as int)),
        decreases av.len() - i,
    {
        let x = av[i];
        let y = bv[i];
        assert(av@.subrange(i as int, av@.len() as int)[0] == x);
        assert(bv@.subrange(i as int, bv@.len() as int)[0] == y);
        if x < y {
            return true;
        }
        if x != y {
            return false;
        }
        assert(av@.subrange(i as int, av@.len() as int).drop_first() == av@.subrange(i + 1, av@.len() as int));
        assert(bv@.subrange(i as int, bv@.len() as int).drop_first() == bv@.subrange(i + 1, bv@.len() as int));
        assert(av@.subrange(0, i + 1) == av@.subrange(0, i as int).push(x));
        assert(bv@.subrange(0, i + 1) == bv@.subrange(0, i as int).push(y));
        i = i + 1;
    }
    i < bv.len()
}


/// `seq_lt` never relates a sequence to itself.
pub proof fn lemma_seq_lt_irreflexive(a: Seq<char>)
    ensures
        !seq_lt(a, a),
    decreases a.len(),
{
    if a.len() > 0 {
        lemma_seq_lt_irreflexive(a.drop_first());
    }
}

/// `seq_lt` is transitive.
pub proof fn lemma_seq_lt_transitive(a: Seq<char>, b: Seq<char>, c: Seq<char>)
    requires
        seq_lt(a, b),
        seq_lt(b, c),
    ensures
        seq_lt(a, c),
    decreases a.len(),
{
    if a.len() > 0 && b.len() > 0 && c.len() > 0 && a[0] == b[0] && b[0] == c[0] {
        lemma_seq_lt_transitive(a.drop_first(), b.drop_first(), c.drop_first());
    }
}

/// Two distinct sequences are ordered one way or the other.
pub proof fn lemma_seq_lt_total(a: Seq<char>, b: Seq<char>)
    ensures
        a != b ==> seq_lt(a, b) || seq_lt(b, a),
        !(seq_lt(a, b) && seq_lt(b, a)),
    decreases a.len(),
{
    if a.len() > 0 && b.len() > 0 {
        lemma_seq_lt_total(a.drop_first(), b.drop_first());
        if a[0] == b[0] && a.drop_first() == b.drop_first() {
            assert(a == seq![a[0]] + a.drop_first());
            assert(b == seq![b[0]] + b.drop_first());
        }
    } else if a.len() == 0 && b.len() == 0 {
        assert(a == b);
    }
}

/// The character sequences held by a sequence of strings.
pub open spec fn strs(v: Seq<String>) -> Seq<Seq<char>> {
    v.map_values(|s: String| s@)
}

/// A sequence of character sequences in strictly increasing order.
pub open spec fn strictly_sorted(s: Seq<Seq<char>>) -> bool {
    forall|i: int, j: int| 0 <= i < j < s.len() ==> seq_lt(#[trigger] s[i], #[trigger] s[j])
}

/// Adds `item` to a strictly sorted list of strings, unless it is already there.
pub fn insert_sorted_unique(v: &mut Vec<String>, item: String)
    requires
        strictly_sorted(strs(old(v)@)),
    ensures
        strictly_sorted(strs(final(v)@)),
        forall|x: Seq<char>| strs(final(v)@).contains(x) <==> (strs(old(v)@).contains(x) || x == item@),
{
    let ghost old_s = strs(v@);
    let mut i: usize = 0;
    while i < v.len()
        invariant
            strs(v@) == old_s,
            strictly_sorted(old_s),
            i <= v@.len(),
            forall|k: int| 0 <= k < i ==> seq_lt(#[trigger] old_s[k], item@),
        ensures
            strs(v@) == old_s,
            i <= v@.len(),
            forall|k: int| 0 <= k < i ==> seq_lt(#[trigger] old_s[k], item@),
            i < v@.len() ==> !seq_lt(old_s[i as int], item@),
        decreases v.len() - i,
    {
        if str_lt(v[i].as_str(), item.as_str()) {
            i = i + 1;
        } else {
            break;
        }
    }
    if i < v.len() && v[i] == item {
        proof {
            assert(old_s[i as int] == item@);
            assert forall|x: Seq<char>| old_s.contains(x) <==> (old_s.contains(x) || x == item@) by {
                if x == item@ {
                    assert(old_s[i as int] == x);
                }
            }
        }
        return;
    }
    proof {
        if i < v@.len() {
            lemma_seq_lt_total(old_s[i as int], item@);
            assert(old_s[i as int] == v@[i as int]@);
            assert(seq_lt(item@, old_s[i as int]));
        }
    }
    v.insert(i, item);
    proof {
        let ns = strs(v@);
        assert(ns == old_s.insert(i as int, item@));
        assert forall|a: int, b: int| 0 <= a < b < ns.len() implies seq_lt(#[trigger] ns[a], #[trigger] ns[b]) by {
            if b < i {
            } else if b == i {
            } else if a < i {
                if b - 1 > i {
                    lemma_seq_lt_transitive(item@, old_s[i as int], old_s[b - 1]);
                }
                lemma_seq_lt_transitive(ns[a], item@, ns[b]);
            } else if a == i {
                if b - 1 > i {
                    lemma_seq_lt_transitive(item@, old_s[i as int], old_s[b - 1]);
                }
            } else {
            }
        }
        assert forall|x: Seq<char>| ns.contains(x) <==> (old_s.contains(x) || x == item@) by {
            if ns.contains(x) {
                let k = choose|k: int| 0 <= k < ns.len() && ns[k] == x;
                if k < i {
                    assert(old_s[k] == x);
                } else if k > i {
                    assert(old_s[k - 1] == x);
                }
            }
            if old_s.contains(x) {
                let k = choose|k: int| 0 <= k < old_s.len() && old_s[k] == x;
                if k < i {
                    assert(ns[k] == x);
                } else {
                    assert(ns[k + 1] == x);
                }
            }
            if x == item@ {
                assert(ns[i as int] == x);
            }
        }
    }
}


/// `pat` occurs in `s` starting at index `i`.
pub open spec fn occurs_at(s: Seq<char>, pat: Seq<char>, i: int) -> bool {
    0 <= i && i + pat.len() <= s.len() && s.subrange(i, i + pat.len()) == pat
}

/// `pat` occurs somewhere in `s`.
pub open spec fn has_occurrence(s: Seq<char>, pat: Seq<char>) -> bool {
    exists|i: int| occurs_at(s, pat, i)
}

/// `i` is the leftmost occurrence of `pat` in `s`.
pub open spec fn is_first_occurrence(s: Seq<char>, pat: Seq<char>, i: int) -> bool {
    occurs_at(s, pat, i) && forall|j: int| 0 <= j < i ==> !occurs_at(s, pat, j)
}

/// `i` is the rightmost occurrence of `pat` in `s`.
pub open spec fn is_last_occurrence(s: Seq<char>, pat: Seq<char>, i: int) -> bool {
    occurs_at(s, pat, i) && forall|j: int| i < j <= s.len() ==> !occurs_at(s, pat, j)
}

/// The leftmost occurrence of `pat` in `s` (meaningful when there is one).
pub open spec fn first_occurrence(s: Seq<char>, pat: Seq<char>) -> int {
    choose|i: int| is_first_occurrence(s, pat, i)
}

/// The rightmost occurrence of `pat` in `s` (meaningful when there is one).
pub open spec fn last_occurrence(s: Seq<char>, pat: Seq<char>) -> int {
    choose|i: int| is_last_occurrence(s, pat, i)
}

/// The leftmost occurrence is unique, so `first_occurrence` names it.
pub proof fn lemma_first_occurrence(s: Seq<char>, pat: Seq<char>, i: int)
    requires
        is_first_occurrence(s, pat, i),
    ensures
        first_occurrence(s, pat) == i,
        has_occurrence(s, pat),
{
    let k = first_occurrence(s, pat);
    assert(is_first_occurrence(s, pat, k));
    if k < i {
        assert(!occurs_at(s, pat, k));
    } else if k > i {
        assert(!occurs_at(s, pat, i));
    }
}

/// The rightmost occurrence is unique, so `last_occurrence` names it.
pub proof fn lemma_last_occurrence(s: Seq<char>, pat: Seq<char>, i: int)
    requires
        is_last_occurrence(s, pat, i),
    ensures
        last_occurrence(s, pat) == i,
        has_occurrence(s, pat),
{
    let k = last_occurrence(s, pat);
    assert(is_last_occurrence(s, pat, k));
    if k < i {
        assert(!occurs_at(s, pat, i));
    } else if k > i {
        assert(!occurs_at(s, pat, k));
    }
}

/// Whether `pat` occurs in `s` at index `i`, computed on character vectors.
pub fn matches_at(s: &Vec<char>, pat: &Vec<char>, i: usize) -> (r: bool)
    ensures
        r == occurs_at(s@, pat@, i as int),
{
    if i > s.len() || pat.len() > s.len() - i {
        return false;
    }
    let mut k: usize = 0;
    let n = s.len();
    while k < pat.len()
        invariant
            n == s@.len(),
            i <= s@.len(),
            i + pat@.len() <= s@.len(),
            k <= pat@.len(),
            forall|t: int| 0 <= t < k ==> s@[i + t] == pat@[t],
        decreases pat.len() - k,
    {
        if s[i + k] != pat[k] {
            assert(s@.subrange(i as int, i + pat@.len())[k as int] != pat@[k as int]);
            return false;
        }
        k = k + 1;
    }
    assert(s@.subrange(i as int, i + pat@.len()) =~= pat@);
    true
}

/// The leftmost index at or after `from` where `pat` occurs.
pub fn find_from(s: &Vec<char>, pat: &Vec<char>, from: usize) -> (r: Option<usize>)
    requires
        from <= s@.len(),
    ensures
        match r {
            Some(i) => from <= i && occurs_at(s@, pat@, i as int) && forall|j: int|
                from <= j < i ==> !occurs_at(s@, pat@, j),
            None => forall|j: int| from <= j ==> !occurs_at(s@, pat@, j),
        },
{
    let mut i: usize = from;
    loop
        invariant
            from <= i <= s@.len(),
            forall|j: int| from <= j < i ==> !occurs_at(s@, pat@, j),
        decreases s.len() - i,
    {
        if matches_at(s, pat, i) {
            return Some(i);
        }
        if i == s.len() {
            return None;
        }
        i = i + 1;
    }
}

/// The leftmost occurrence of `pat` in `s`.
pub fn find_seq(s: &Vec<char>, pat: &Vec<char>) -> (r: Option<usize>)
    ensures
        match r {
            Some(i) => is_first_occurrence(s@, pat@, i as int),
            None => !has_occurrence(s@, pat@),
        },
{
    find_from(s, pat, 0)
}

/// The rightmost occurrence of `pat` in `s`.
pub fn rfind_seq(s: &Vec<char>, pat: &Vec<char>) -> (r: Option<usize>)
    ensures
        match r {
            Some(i) => is_last_occurrence(s@, pat@, i as int),
            None => !has_occurrence(s@, pat@),
        },
{
    let mut i: usize = s.len();
    loop
        invariant
            i <= s@.len(),
            forall|j: int| i < j ==> !occurs_at(s@, pat@, j),
        decreases i,
    {
        if matches_at(s, pat, i) {
            return Some(i);
        }
        if i == 0 {
            return None;
        }
        i = i - 1;
    }
}

/// A new string holding the characters `from..to` of `s`.
pub fn substring(s: &str, from: usize, to: usize) -> (r: String)
    requires
        from <= to <= s@.len(),
    ensures
        r@ == s@.subrange(from as int, to as int),
{
    String::from_str(s.substring_char(from, to))
}

/// `needle` occurs in `haystack`, as `str::contains` decides for a string pattern.
pub fn contains_str(haystack: &str, needle: &str) -> (r: bool)
    ensures
        r == has_occurrence(haystack@, needle@),
{
    let h = chars_of(haystack);
    let n = chars_of(needle);
    find_seq(&h, &n).is_some()
}


/// Below any occurrence of `pat` there is a leftmost one.
pub proof fn lemma_first_occurrence_exists(s: Seq<char>, pat: Seq<char>, w: int)
    requires
        occurs_at(s, pat, w),
    ensures
        is_first_occurrence(s, pat, first_occurrence(s, pat)),
        first_occurrence(s, pat) <= w,
    decreases w,
{
    if forall|j: int| 0 <= j < w ==> !occurs_at(s, pat, j) {
        lemma_first_occurrence(s, pat, w);
    } else {
        let j = choose|j: int| 0 <= j < w && occurs_at(s, pat, j);
        lemma_first_occurrence_exists(s, pat, j);
    }
}

/// Pieces of `s` between the occurrences of `sep`, found from left to right,
/// as `str::split` yields them for a string pattern.
pub open spec fn split_on(s: Seq<char>, sep: Seq<char>) -> Seq<Seq<char>>
    decreases s.len(),
    when sep.len() > 0
{
    if has_occurrence(s, sep) {
        let i = first_occurrence(s, sep);
        proof {
            let w = choose|w: int| occurs_at(s, sep, w);
            lemma_first_occurrence_exists(s, sep, w);
        }
        seq![s.subrange(0, i)] + split_on(s.subrange(i + sep.len(), s.len() as int), sep)
    } else {
        seq![s]
    }
}

/// Occurrences in a suffix are the occurrences in the whole, shifted.
pub proof fn lemma_occurs_in_suffix(s: Seq<char>, pat: Seq<char>, start: int, i: int)
    requires
        0 <= start <= s.len(),
    ensures
        occurs_at(s.subrange(start, s.len() as int), pat, i) <==> (0 <= i && occurs_at(s, pat, start + i)),
{
    let t = s.subrange(start, s.len() as int);
    if 0 <= i && i + pat.len() <= t.len() {
        assert(t.subrange(i, i + pat.len()) =~= s.subrange(start + i, start + i + pat.len()));
    }
}

/// Splits `s` at every occurrence of `sep`, from left to right.
pub fn split_str(s: &str, sep: &str) -> (r: Vec<String>)
    requires
        sep@.len() > 0,
    ensures
        strs(r@) == split_on(s@, sep@),
{
    let sv = chars_of(s);
    let pv = chars_of(sep);
    let n = sv.len();
    let mut out: Vec<String> = Vec::new();
    let mut start: usize = 0;
    assert(s@.subrange(0, n as int) =~= s@);
    assert(strs(out@) =~= Seq::<Seq<char>>::empty());
    assert(strs(out@) + split_on(s@, sep@) =~= split_on(s@, sep@));
    loop
        invariant
            sv@ == s@,
            pv@ == sep@,
            n == sv@.len(),
            sep@.len() > 0,
            start <= n,
            strs(out@) + split_on(s@.subrange(start as int, n as int), sep@) == split_on(s@, sep@),
        decreases n - start,
    {
        let ghost rest = s@.subrange(start as int, n as int);
        match find_from(&sv, &pv, start) {
            Some(i) => {
                proof {
                    lemma_occurs_in_suffix(s@, sep@, start as int, i - start);
                    assert forall|j: int| 0 <= j < i - start implies !occurs_at(rest, sep@, j) by {
                        lemma_occurs_in_suffix(s@, sep@, start as int, j);
                    }
                    lemma_first_occurrence(rest, sep@, i - start);
                    assert(rest.subrange(0, i - start) =~= s@.subrange(start as int, i as int));
                    assert(rest.subrange(i - start + sep@.len(), rest.len() as int) =~= s@.subrange(i + sep@.len(), n as int));
                }
                let piece = substring(s, start, i);
                let ghost before = out@;
                out.push(piece);
                proof {
                    assert(strs(out@) =~= strs(before).push(rest.subrange(0, i - start)));
                    assert(strs(out@) + split_on(s@.subrange(i + sep@.len(), n as int), sep@) =~= strs(before) + split_on(rest, sep@));
                }
                start = i + pv.len();
            }
            None => {
                proof {
                    assert forall|j: int| !occurs_at(rest, sep@, j) by {
                        lemma_occurs_in_suffix(s@, sep@, start as int, j);
                    }
                }
                let piece = substring(s, start, n);
                let ghost before = out@;
                out.push(piece);
                proof {
                    assert(strs(out@) =~= strs(before).push(rest));
                    assert(split_on(rest, sep@) == seq![rest]);
                    assert(strs(out@) =~= strs(before) + split_on(rest, sep@));
                }
                return out;
            }
        }
    }
}


/// What `str::to_lowercase` makes of a string: Unicode lower-case mapping,
/// character by character except for the final sigma rule.
pub uninterp spec fn lowercase_of(s: Seq<char>) -> Seq<char>;

/// Lower-cases a string with `str::to_lowercase`; the result depends on the
/// characters of `s` alone.
#[verifier::external_body]
pub(crate) fn to_lowercase(s: &str) -> (r: String)
    ensures
        r@ == lowercase_of(s@),
{
    s.to_lowercase()
}

/// The Unicode `White_Space` property, which `char::is_whitespace` reports:
/// tab to carriage return, space, next line, no-break space, ogham space
/// mark, the spaces from en quad to hair space, line and paragraph
/// separators, narrow no-break space, medium mathematical space and
/// ideographic space.
pub open spec fn is_white_space(c: char) -> bool {
    ||| '\u{9}' <= c <= '\u{d}'
    ||| c == ' '
    ||| c == '\u{85}'
    ||| c == '\u{a0}'
    ||| c == '\u{1680}'
    ||| '\u{2000}' <= c <= '\u{200a}'
    ||| c == '\u{2028}'
    ||| c == '\u{2029}'
    ||| c == '\u{202f}'
    ||| c == '\u{205f}'
    ||| c == '\u{3000}'
}

/// Whether `c` is white space in the sense of Unicode's `White_Space`.
pub(crate) fn is_whitespace(c: char) -> (r: bool)
    ensures
        r == is_white_space(c),
{
    ('\u{9}' <= c && c <= '\u{d}') || c == ' ' || c == '\u{85}' || c == '\u{a0}' || c == '\u{1680}' || ('\u{2000}'
        <= c && c <= '\u{200a}') || c == '\u{2028}' || c == '\u{2029}' || c == '\u{202f}' || c == '\u{205f}' || c
        == '\u{3000}'
}

/// `s` without leading and trailing white space, as `str::trim` gives it.
pub open spec fn trimmed(s: Seq<char>) -> Seq<char> {
    if forall|i: int| 0 <= i < s.len() ==> is_white_space(#[trigger] s[i]) {
        Seq::empty()
    } else {
        let a = choose|a: int|
            0 <= a < s.len() && !is_white_space(#[trigger] s[a]) && forall|j: int| 0 <= j < a ==> is_white_space(#[trigger] s[j]);
        let b = choose|b: int|
            0 <= b < s.len() && !is_white_space(#[trigger] s[b]) && forall|j: int| b < j < s.len() ==> is_white_space(#[trigger] s[j]);
        s.subrange(a, b + 1)
    }
}

/// Removes leading and trailing white space, as `str::trim` does.
pub fn trim(s: &str) -> (r: String)
    ensures
        r@ == trimmed(s@),
{
    let v = chars_of(s);
    let n = v.len();
    let mut a: usize = 0;
    while a < n && is_whitespace(v[a])
        invariant
            v@ == s@,
            n == v@.len(),
            a <= n,
            forall|j: int| 0 <= j < a ==> is_white_space(#[trigger] v@[j]),
        decreases n - a,
    {
        a = a + 1;
    }
    if a == n {
        return String::new();
    }
    let mut b: usize = n - 1;
    while is_whitespace(v[b])
        invariant
            v@ == s@,
            n == v@.len(),
            a < n,
            a <= b < n,
            !is_white_space(v@[a as int]),
            forall|j: int| b < j < n ==> is_white_space(#[trigger] v@[j]),
        decreases b,
    {
        b = b - 1;
    }
    proof {
        let a2 = choose|a2: int|
            0 <= a2 < s@.len() && !is_white_space(#[trigger] s@[a2]) && forall|j: int| 0 <= j < a2 ==> is_white_space(#[trigger] s@[j]);
        let b2 = choose|b2: int|
            0 <= b2 < s@.len() && !is_white_space(#[trigger] s@[b2]) && forall|j: int| b2 < j < s@.len() ==> is_white_space(#[trigger] s@[j]);
        assert(!is_white_space(s@[a as int]) && forall|j: int| 0 <= j < a ==> is_white_space(#[trigger] s@[j]));
        assert(!is_white_space(s@[b as int]) && forall|j: int| b < j < s@.len() ==> is_white_space(#[trigger] s@[j]));
        if a2 < a as int {
        } else if a2 > a as int {
            assert(is_white_space(s@[a as int]));
        }
        if b2 < b as int {
            assert(is_white_space(s@[b as int]));
        } else if b2 > b as int {
        }
    }
    substring(s, a, b + 1)
}


/// Whether two strings hold the same characters.
pub fn str_eq(a: &str, b: &str) -> (r: bool)
    ensures
        r == (a@ == b@),
{
    String::from_str(a) == String::from_str(b)
}


/// Orders positions of `names` by name, and equal names by position: the
/// order a stable sort by name gives.
pub open spec fn name_index_lt(names: Seq<Seq<char>>, a: int, b: int) -> bool {
    seq_lt(names[a], names[b]) || (names[a] == names[b] && a < b)
}

/// `perm` lists each of `0..n` once.
pub open spec fn is_permutation(perm: Seq<usize>, n: nat) -> bool {
    &&& perm.len() == n
    &&& forall|k: int| 0 <= k < perm.len() ==> #[trigger] perm[k] < n
    &&& forall|a: int, b: int| 0 <= a < b < perm.len() ==> perm[a] != perm[b]
}

/// The positions of `names` in the order a stable sort by name puts them.
pub fn stable_name_order(names: &Vec<String>) -> (order: Vec<usize>)
    ensures
        is_permutation(order@, names@.len()),
        forall|a: int, b: int|
            0 <= a < b < order@.len() ==> name_index_lt(strs(names@), #[trigger] order@[a] as int, #[trigger] order@[b] as int),
{
    let ghost ns = strs(names@);
    let mut order: Vec<usize> = Vec::new();
    let mut i: usize = 0;
    while i < names.len()
        invariant
            ns == strs(names@),
            i <= names@.len(),
            order@.len() == i,
            forall|k: int| 0 <= k < order@.len() ==> #[trigger] order@[k] < i,
            forall|a: int, b: int| 0 <= a < b < order@.len() ==> order@[a] != order@[b],
            forall|a: int, b: int|
                0 <= a < b < order@.len() ==> name_index_lt(ns, #[trigger] order@[a] as int, #[trigger] order@[b] as int),
        decreases names.len() - i,
    {
        let mut pos: usize = 0;
        while pos < order.len()
            invariant
                ns == strs(names@),
                i < names@.len(),
                pos <= order@.len(),
                forall|k: int| 0 <= k < order@.len() ==> #[trigger] order@[k] < i,
                forall|k: int| 0 <= k < pos ==> name_index_lt(ns, #[trigger] order@[k] as int, i as int),
            ensures
                pos <= order@.len(),
                forall|k: int| 0 <= k < pos ==> name_index_lt(ns, #[trigger] order@[k] as int, i as int),
                pos < order@.len() ==> seq_lt(ns[i as int], ns[order@[pos as int] as int]),
            decreases order.len() - pos,
        {
            let j = order[pos];
            assert(ns[j as int] == names@[j as int]@);
            assert(ns[i as int] == names@[i as int]@);
            if str_lt(names[i].as_str(), names[j].as_str()) {
                break;
            }
            proof {
                lemma_seq_lt_total(ns[i as int], ns[j as int]);
            }
            pos = pos + 1;
        }
        let ghost before = order@;
        order.insert(pos, i);
        proof {
            assert forall|a: int, b: int| 0 <= a < b < order@.len() implies name_index_lt(ns, #[trigger] order@[a] as int, #[trigger] order@[b] as int) by {
                let x = order@[a] as int;
                let y = order@[b] as int;
                if b < pos {
                    assert(before[a] == order@[a] && before[b] == order@[b]);
                } else if b == pos {
                } else if a < pos {
                    assert(order@[b] == before[b - 1]);
                    if b - 1 > pos {
                        assert(name_index_lt(ns, before[pos as int] as int, before[b - 1] as int));
                    }
                    // i precedes before[pos] strictly by name, and before[pos] precedes before[b - 1]
                    let z = before[pos as int] as int;
                    if seq_lt(ns[z], ns[y]) {
                        lemma_seq_lt_transitive(ns[i as int], ns[z], ns[y]);
                    }
                    if seq_lt(ns[x], ns[i as int]) {
                        lemma_seq_lt_transitive(ns[x], ns[i as int], ns[y]);
                    }
                } else if a == pos {
                    assert(order@[b] == before[b - 1]);
                    let z = before[pos as int] as int;
                    if b - 1 > pos {
                        assert(name_index_lt(ns, z, y));
                        if seq_lt(ns[z], ns[y]) {
                            lemma_seq_lt_transitive(ns[i as int], ns[z], ns[y]);
                        }
                    }
                } else {
                    assert(order@[a] == before[a - 1]);
                    assert(order@[b] == before[b - 1]);
                }
            }
            assert forall|a: int, b: int| 0 <= a < b < order@.len() implies order@[a] != order@[b] by {
                if a == pos {
                    assert(order@[b] == before[b - 1]);
                } else if b == pos {
                    assert(order@[a] == before[a]);
                } else {
                    let a2 = if a < pos { a } else { a - 1 };
                    let b2 = if b < pos { b } else { b - 1 };
                    assert(order@[a] == before[a2]);
                    assert(order@[b] == before[b2]);
                }
            }
            assert forall|k: int| 0 <= k < order@.len() implies #[trigger] order@[k] < i + 1 by {
                if k < pos {
                    assert(order@[k] == before[k]);
                } else if k > pos {
                    assert(order@[k] == before[k - 1]);
                }
            }
        }
        i = i + 1;
    }
    order
}

} // verus!
