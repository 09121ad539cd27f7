//! String and identifier helpers shared by the whole engine.
//!
//! Identifiers are `String`s; in contracts they are compared by their views
//! (`Seq<char>`).
use vstd::prelude::*;

verus! {

/// The views of a sequence of strings.
pub open spec fn views(v: Seq<String>) -> Seq<Seq<char>> {
    v.map_values(|s: String| s@)
}

/// `x` occurs (by view) in `v`.
pub open spec fn has_id(v: Seq<String>, x: Seq<char>) -> bool {
    exists|i: int| 0 <= i < v.len() && #[trigger] v[i]@ == x
}

/// `needle` occurs as a contiguous block of `hay`.
pub open spec fn is_substring(hay: Seq<char>, needle: Seq<char>) -> bool {
    exists|i: int| 0 <= i && i + needle.len() <= hay.len()
        && #[trigger] hay.subrange(i, i + needle.len()) == needle
}

/// Lexicographic order on character sequences by code point, which is the
/// order of `String` (byte-wise order of UTF-8 agrees with code-point order).
pub open spec fn seq_lt(a: Seq<char>, b: Seq<char>) -> bool
    decreases a.len(),
{
    if a.len() == 0 {
        b.len() > 0
    } else if b.len() == 0 {
        false
    } else if a[0] != b[0] {
        a[0] < b[0]
    } else {
        seq_lt(a.drop_first(), b.drop_first())
    }
}

/// A sequence of strings whose views are strictly increasing.
pub open spec fn strictly_sorted(v: Seq<String>) -> bool {
    forall|i: int, j: int| 0 <= i < j < v.len() ==> seq_lt(#[trigger] v[i]@, #[trigger] v[j]@)
}

/// The set of views of a sequence of strings.
pub open spec fn view_set(v: Seq<String>) -> Set<Seq<char>> {
    Set::new(|x: Seq<char>| has_id(v, x))
}

pub proof fn lemma_seq_lt_irrefl(a: Seq<char>)
    ensures !seq_lt(a, a),
    decreases a.len(),
{
    if a.len() > 0 {
        lemma_seq_lt_irrefl(a.drop_first());
    }
}

pub proof fn lemma_seq_lt_asym(a: Seq<char>, b: Seq<char>)
    ensures !(seq_lt(a, b) && seq_lt(b, a)),
    decreases a.len(),
{
    if a.len() > 0 && b.len() > 0 && a[0] == b[0] {
        lemma_seq_lt_asym(a.drop_first(), b.drop_first());
    }
}

pub proof fn lemma_seq_lt_trans(a: Seq<char>, b: Seq<char>, c: Seq<char>)
    requires seq_lt(a, b), seq_lt(b, c),
    ensures seq_lt(a, c),
    decreases a.len(),
{
    if a.len() > 0 && b.len() > 0 && c.len() > 0 && a[0] == b[0] && b[0] == c[0] {
        lemma_seq_lt_trans(a.drop_first(), b.drop_first(), c.drop_first());
    }
}

pub proof fn lemma_seq_lt_total(a: Seq<char>, b: Seq<char>)
    requires a != b,
    ensures seq_lt(a, b) || seq_lt(b, a),
    decreases a.len(),
{
    if a.len() > 0 && b.len() > 0 && a[0] == b[0] {
        let da = a.drop_first();
        let db = b.drop_first();
        assert(da.len() == a.len() - 1);
        assert(db.len() == b.len() - 1);
        if da =~= db {
            assert(a.len() == b.len());
            assert forall|i: int| 0 <= i < a.len() implies a[i] == b[i] by {
                if i > 0 {
                    assert(a[i] == da[i - 1]);
                    assert(b[i] == db[i - 1]);
                }
            }
            assert(a =~= b);
        }
        lemma_seq_lt_total(da, db);
    } else if a.len() == 0 && b.len() == 0 {
        assert(a =~= b);
    }
}


proof fn lemma_seq_lt_skip(a: Seq<char>, b: Seq<char>, i: int)
    requires
        0 <= i <= a.len(),
        i <= b.len(),
        forall|k: int| 0 <= k < i ==> a[k] == b[k],
    ensures seq_lt(a, b) == seq_lt(a.subrange(i, a.len() as int), b.subrange(i, b.len() as int)),
    decreases i,
{
    if i == 0 {
        assert(a.subrange(0, a.len() as int) =~= a);
        assert(b.subrange(0, b.len() as int) =~= b);
    } else {
        lemma_seq_lt_skip(a.drop_first(), b.drop_first(), i - 1);
        assert(a.drop_first().subrange(i - 1, a.drop_first().len() as int) =~= a.subrange(i, a.len() as int));
        assert(b.drop_first().subrange(i - 1, b.drop_first().len() as int) =~= b.subrange(i, b.len() as int));
    }
}

/// Character-wise lexicographic comparison (`a < b` on `String`).
pub fn str_lt(a: &String, b: &String) -> (r: bool)
    ensures r == seq_lt(a@, b@),
{
    let ca = chars_of(a.as_str());
    let cb = chars_of(b.as_str());
    let mut i: usize = 0;
    while i < ca.len() && i < cb.len()
        invariant
            ca@ == a@,
            cb@ == b@,
            i <= ca.len(),
            i <= cb.len(),
            forall|k: int| 0 <= k < i ==> ca@[k] == cb@[k],
        decreases ca.len() - i,
    {
        if ca[i] != cb[i] {
            proof {
                lemma_seq_lt_skip(a@, b@, i as int);
                let sa = a@.subrange(i as int, a@.len() as int);
                let sb = b@.subrange(i as int, b@.len() as int);
                assert(sa[0] == ca@[i as int]);
                assert(sb[0] == cb@[i as int]);
            }
            return ca[i] < cb[i];
        }
        i = i + 1;
    }
    proof {
        lemma_seq_lt_skip(a@, b@, i as int);
    }
    i == ca.len() && i < cb.len()
}

/// Inserts `x` into a strictly sorted vector unless an equal string is
/// already present; the result is strictly sorted and holds exactly the old
/// strings and `x`.
pub fn insert_sorted_unique(v: &mut Vec<String>, x: String)
    requires strictly_sorted(old(v)@),
    ensures
        strictly_sorted(final(v)@),
        forall|y: Seq<char>| has_id(final(v)@, y) <==> (has_id(old(v)@, y) || y == x@),
{
    let mut i: usize = 0;
    loop
        invariant_except_break
            i <= v.len(),
            v@ == old(v)@,
            strictly_sorted(v@),
            forall|k: int| 0 <= k < i ==> seq_lt(#[trigger] v@[k]@, x@),
        ensures
            i <= v.len(),
            v@ == old(v)@,
            strictly_sorted(v@),
            forall|k: int| 0 <= k < i ==> seq_lt(#[trigger] v@[k]@, x@),
            i < v.len() ==> seq_lt(x@, v@[i as int]@),
        decreases v.len() - i,
    {
        if i >= v.len() {
            break;
        }
        if v[i] == x {
            proof { assert(has_id(v@, x@)); }
            return;
        }
        if str_lt(&x, &v[i]) {
            break;
        }
        proof { lemma_seq_lt_total(v@[i as int]@, x@); }
        i = i + 1;
    }
    let ghost pre = v@;
    let ghost xv = x;
    v.insert(i, x);
    assert(pre == old(v)@);
    proof {
        assert(v@ =~= pre.subrange(0, i as int).push(x).add(pre.subrange(i as int, pre.len() as int)));
        assert forall|a: int, b: int| 0 <= a < b < v@.len() implies seq_lt(#[trigger] v@[a]@, #[trigger] v@[b]@) by {
            if b < i {
            } else if b == i {
            } else if a < i {
                lemma_seq_lt_trans(v@[a]@, x@, pre[i as int]@);
                if b - 1 > i {
                    lemma_seq_lt_trans(v@[a]@, pre[i as int]@, pre[b - 1]@);
                }
            } else if a == i {
                if b - 1 > i {
                    lemma_seq_lt_trans(x@, pre[i as int]@, pre[b - 1]@);
                }
            } else {
            }
        }
        assert forall|y: Seq<char>| has_id(v@, y) <==> (has_id(pre, y) || y == xv@) by {
            if has_id(v@, y) {
                let k = choose|k: int| 0 <= k < v@.len() && #[trigger] v@[k]@ == y;
                if k < i { assert(pre[k]@ == y); } else if k > i { assert(pre[k - 1]@ == y); }
            }
            if has_id(pre, y) {
                let k = choose|k: int| 0 <= k < pre.len() && #[trigger] pre[k]@ == y;
                if k < i { assert(v@[k]@ == y); } else { assert(v@[k + 1]@ == y); }
            }
            if y == xv@ { assert(v@[i as int]@ == y); }
        }
        assert(xv@ == x@);
        assert(forall|y: Seq<char>| has_id(v@, y) <==> (has_id(old(v)@, y) || y == x@));
    }
}

/// The strings of `v`, sorted strictly ascending without repetitions.
pub fn sorted_unique(v: &Vec<String>) -> (r: Vec<String>)
    ensures
        strictly_sorted(r@),
        forall|y: Seq<char>| has_id(r@, y) <==> has_id(v@, y),
{
    let mut r: Vec<String> = Vec::new();
    let mut i: usize = 0;
    while i < v.len()
        invariant
            i <= v.len(),
            strictly_sorted(r@),
            forall|y: Seq<char>| has_id(r@, y) <==> has_id(v@.subrange(0, i as int), y),
        decreases v.len() - i,
    {
        let ghost before = r@;
        insert_sorted_unique(&mut r, v[i].clone());
        proof {
            assert forall|y: Seq<char>| has_id(r@, y) <==> has_id(v@.subrange(0, i + 1), y) by {
                let s0 = v@.subrange(0, i as int);
                let s1 = v@.subrange(0, i + 1);
                if has_id(s0, y) {
                    let k = choose|k: int| 0 <= k < s0.len() && #[trigger] s0[k]@ == y;
                    assert(s1[k]@ == y);
                }
                if has_id(s1, y) {
                    let k = choose|k: int| 0 <= k < s1.len() && #[trigger] s1[k]@ == y;
                    if k < i { assert(s0[k]@ == y); }
                }
                if y == v@[i as int]@ { assert(s1[i as int]@ == y); }
            }
        }
        i = i + 1;
    }
    assert(v@.subrange(0, v@.len() as int) =~= v@);
    r
}

/// The characters of a string, one by one.
pub fn chars_of(s: &str) -> (r: Vec<char>)
    ensures r@ == s@,
{
    let n = s.unicode_len();
    let mut r: Vec<char> = Vec::new();
    let mut i: usize = 0;
    while i < n
        invariant
            n == s@.len(),
            i <= n,
            r@ == s@.subrange(0, i as int),
        decreases n - i,
    {
        let c = s.get_char(i);
        r.push(c);
        i = i + 1;
        assert(r@ =~= s@.subrange(0, i as int));
    }
    assert(r@ =~= s@);
    r
}

/// Builds a string from characters (std `collect`).
#[verifier::external_body]
pub(crate) fn string_from_chars(v: &Vec<char>) -> (s: String)
    ensures s@ == v@,
{
    v.iter().collect()
}

/// A fresh owned copy of a string slice.
pub fn owned(s: &str) -> (r: String)
    ensures r@ == s@,
{
    String::from_str(s)
}

/// Concatenation of two slices.
pub fn cat2(a: &str, b: &str) -> (r: String)
    ensures r@ == a@ + b@,
{
    let mut s = String::from_str(a);
    s.append(b);
    s
}

/// Concatenation of three slices.
pub fn cat3(a: &str, b: &str, c: &str) -> (r: String)
    ensures r@ == a@ + b@ + c@,
{
    let mut s = String::from_str(a);
    s.append(b);
    s.append(c);
    s
}

/// Concatenation of five slices.
pub fn cat5(a: &str, b: &str, c: &str, d: &str, e: &str) -> (r: String)
    ensures r@ == a@ + b@ + c@ + d@ + e@,
{
    let mut s = String::from_str(a);
    s.append(b);
    s.append(c);
    s.append(d);
    s.append(e);
    s
}

pub fn cat4(a: &str, b: &str, c: &str, d: &str) -> (r: String)
    ensures r@ == a@ + b@ + c@ + d@,
{
    let mut s = String::from_str(a);
    s.append(b);
    s.append(c);
    s.append(d);
    s
}

/// The elements of `s`, in order, that satisfy `p`.
pub open spec fn filter_seq<A>(s: Seq<A>, p: spec_fn(A) -> bool) -> Seq<A>
    decreases s.len(),
{
    if s.len() == 0 {
        Seq::empty()
    } else {
        let r = filter_seq(s.drop_last(), p);
        if p(s.last()) { r.push(s.last()) } else { r }
    }
}

/// One more element of `s` considered by a filter.
pub proof fn lemma_filter_step<A>(s: Seq<A>, p: spec_fn(A) -> bool, i: int)
    requires 0 <= i < s.len(),
    ensures
        filter_seq(s.take(i + 1), p) == if p(s[i]) { filter_seq(s.take(i), p).push(s[i]) } else { filter_seq(s.take(i), p) },
{
    assert(s.take(i + 1).drop_last() =~= s.take(i));
    assert(s.take(i + 1).last() == s[i]);
}

/// A filter of a whole sequence.
pub proof fn lemma_take_all<A>(s: Seq<A>)
    ensures s.take(s.len() as int) == s,
{
    assert(s.take(s.len() as int) =~= s);
}

/// A filter keeps at most the elements it is given.
pub proof fn lemma_filter_len<A>(s: Seq<A>, p: spec_fn(A) -> bool)
    ensures filter_seq(s, p).len() <= s.len(),
    decreases s.len(),
{
    if s.len() > 0 {
        lemma_filter_len(s.drop_last(), p);
    }
}

/// Membership by view is membership in the views.
pub proof fn lemma_has_id_views(v: Seq<String>, x: Seq<char>)
    ensures has_id(v, x) <==> views(v).contains(x),
{
    if has_id(v, x) {
        let k = choose|k: int| 0 <= k < v.len() && #[trigger] v[k]@ == x;
        assert(views(v)[k] == x);
    }
    if views(v).contains(x) {
        let k = choose|k: int| 0 <= k < views(v).len() && views(v)[k] == x;
        assert(v[k]@ == x);
    }
}

/// Appends copies of `src` to `dst`.
pub fn push_all(dst: &mut Vec<String>, src: &Vec<String>)
    ensures final(dst)@ == old(dst)@ + src@,
{
    let mut j: usize = 0;
    while j < src.len()
        invariant
            j <= src@.len(),
            dst@ == old(dst)@ + src@.take(j as int),
        decreases src@.len() - j,
    {
        dst.push(src[j].clone());
        proof { assert(old(dst)@ + src@.take(j + 1) =~= (old(dst)@ + src@.take(j as int)).push(src@[j as int])); }
        j = j + 1;
    }
    assert(src@.take(src@.len() as int) =~= src@);
}

/// Membership in a concatenation.
pub proof fn lemma_has_id_concat(a: Seq<String>, b: Seq<String>, x: Seq<char>)
    ensures has_id(a + b, x) <==> has_id(a, x) || has_id(b, x),
{
    let c = a + b;
    if has_id(c, x) {
        let k = choose|k: int| 0 <= k < c.len() && #[trigger] c[k]@ == x;
        if k < a.len() { assert(a[k] == c[k]); } else { assert(b[k - a.len()] == c[k]); }
    }
    if has_id(a, x) {
        let k = choose|k: int| 0 <= k < a.len() && #[trigger] a[k]@ == x;
        assert(c[k] == a[k]);
    }
    if has_id(b, x) {
        let k = choose|k: int| 0 <= k < b.len() && #[trigger] b[k]@ == x;
        assert(c[k + a.len()] == b[k]);
    }
}

/// A copy of a vector of strings.
pub fn clone_strings(v: &Vec<String>) -> (r: Vec<String>)
    ensures r@ == v@,
{
    let r = v.clone();
    proof {
        assert forall|i: int| 0 <= i < r@.len() implies r@[i] == v@[i] by {
            assert(vstd::pervasive::cloned::<String>(v@[i], r@[i]));
        }
        assert(r@ =~= v@);
    }
    r
}

/// A copy of an optional string.
pub fn clone_opt_string(o: &Option<String>) -> (r: Option<String>)
    ensures r == *o,
{
    match o {
        Some(s) => Some(s.clone()),
        None => None,
    }
}

/// Whether `x` occurs (by view) in `v`.
pub fn contains_string(v: &Vec<String>, x: &String) -> (r: bool)
    ensures r == has_id(v@, x@),
{
    let mut i: usize = 0;
    while i < v.len()
        invariant
            i <= v.len(),
            forall|k: int| 0 <= k < i ==> v@[k]@ != x@,
        decreases v.len() - i,
    {
        if v[i] == *x {
            return true;
        }
        i = i + 1;
    }
    false
}

/// Position of the first string equal (by view) to `x`.
pub fn position_of(v: &Vec<String>, x: &String) -> (r: Option<usize>)
    ensures
        match r {
            Some(i) => i < v@.len() && v@[i as int]@ == x@
                && forall|k: int| 0 <= k < i ==> v@[k]@ != x@,
            None => !has_id(v@, x@),
        },
{
    let mut i: usize = 0;
    while i < v.len()
        invariant
            i <= v.len(),
            forall|k: int| 0 <= k < i ==> v@[k]@ != x@,
        decreases v.len() - i,
    {
        if v[i] == *x {
            return Some(i);
        }
        i = i + 1;
    }
    None
}

/// Whether the character sequence `needle` occurs contiguously in `hay`.
pub fn chars_contain(hay: &Vec<char>, needle: &Vec<char>) -> (r: bool)
    ensures r == is_substring(hay@, needle@),
{
    let n = hay.len();
    let m = needle.len();
    if m > n {
        proof {
            assert forall|i: int| !(0 <= i && i + m <= n && #[trigger] hay@.subrange(i, i + m) == needle@) by {}
        }
        return false;
    }
    let mut i: usize = 0;
    loop
        invariant
            n == hay@.len(),
            m == needle@.len(),
            m <= n,
            i <= n - m,
            forall|k: int| 0 <= k < i ==> #[trigger] hay@.subrange(k, k + m) != needle@,
        decreases n - m - i,
    {
        let mut j: usize = 0;
        let mut ok = true;
        while j < m
            invariant
                n == hay@.len(),
                m == needle@.len(),
                i + m <= n,
                j <= m,
                ok ==> forall|t: int| 0 <= t < j ==> hay@[i + t] == needle@[t],
                !ok ==> hay@.subrange(i as int, i + m) != needle@,
            decreases m - j,
        {
            if hay[i + j] != needle[j] {
                ok = false;
                assert(hay@.subrange(i as int, i + m)[j as int] == hay@[i + j]);
            }
            j = j + 1;
        }
        if ok {
            assert(hay@.subrange(i as int, i + m) =~= needle@);
            return true;
        }
        if i == n - m {
            return false;
        }
        i = i + 1;
    }
}

/// `s.to_lowercase()` as a name: Unicode lowercase mapping of a string.
pub uninterp spec fn spec_to_lowercase(s: Seq<char>) -> Seq<char>;

/// `s.to_uppercase()` as a name: Unicode uppercase mapping of a string.
pub uninterp spec fn spec_to_uppercase(s: Seq<char>) -> Seq<char>;

pub open spec fn is_ascii_seq(s: Seq<char>) -> bool {
    forall|i: int| 0 <= i < s.len() ==> (#[trigger] s[i] as u32) < 128
}

pub open spec fn ascii_lower_char(c: char) -> char {
    if 'A' <= c && c <= 'Z' { ((c as u32) + 32) as char } else { c }
}

pub open spec fn ascii_upper_char(c: char) -> char {
    if 'a' <= c && c <= 'z' { ((c as u32) - 32) as char } else { c }
}

pub open spec fn ascii_lower(s: Seq<char>) -> Seq<char> {
    s.map_values(|c: char| ascii_lower_char(c))
}

pub open spec fn ascii_upper(s: Seq<char>) -> Seq<char> {
    s.map_values(|c: char| ascii_upper_char(c))
}

/// std `str::to_lowercase`. The result is named by `spec_to_lowercase`; on
/// ASCII input the Unicode lowercase mapping is the ASCII one, which the
/// contract states.
#[verifier::external_body]
pub(crate) fn to_lowercase(s: &str) -> (r: String)
    ensures
        r@ == spec_to_lowercase(s@),
        is_ascii_seq(s@) ==> r@ == ascii_lower(s@),
{
    s.to_lowercase()
}

/// std `str::to_uppercase`. The result is named by `spec_to_uppercase`; on
/// ASCII input the Unicode uppercase mapping is the ASCII one, which the
/// contract states.
#[verifier::external_body]
pub(crate) fn to_uppercase(s: &str) -> (r: String)
    ensures
        r@ == spec_to_uppercase(s@),
        is_ascii_seq(s@) ==> r@ == ascii_upper(s@),
{
    s.to_uppercase()
}

/// Decimal digit character.
pub open spec fn digit_char(d: nat) -> char {
    ((48 + d) as u32) as char
}

/// Decimal representation of a natural number, without leading zeros.
pub open spec fn decimal(n: nat) -> Seq<char>
    decreases n,
{
    if n < 10 {
        seq![digit_char(n)]
    } else {
        decimal(n / 10).push(digit_char(n % 10))
    }
}

/// Decimal representation left-padded with `0` to at least `w` characters.
pub open spec fn zero_pad(s: Seq<char>, w: nat) -> Seq<char> {
    if s.len() >= w { s } else { Seq::new((w - s.len()) as nat, |i: int| '0') + s }
}

fn digit_str(d: u64) -> (r: &'static str)
    requires d < 10,
    ensures r@ == seq![digit_char(d as nat)],
{
    proof {
        reveal_strlit("0"); reveal_strlit("1"); reveal_strlit("2"); reveal_strlit("3");
        reveal_strlit("4"); reveal_strlit("5"); reveal_strlit("6"); reveal_strlit("7");
        reveal_strlit("8"); reveal_strlit("9");
    }
    let r = if d == 0 { "0" } else if d == 1 { "1" } else if d == 2 { "2" } else if d == 3 { "3" }
        else if d == 4 { "4" } else if d == 5 { "5" } else if d == 6 { "6" } else if d == 7 { "7" }
        else if d == 8 { "8" } else { "9" };
    assert(r@ =~= seq![digit_char(d as nat)]);
    r
}

/// Decimal representation of `n`.
pub fn u64_to_decimal(n: u64) -> (r: String)
    ensures r@ == decimal(n as nat),
    decreases n,
{
    if n < 10 {
        owned(digit_str(n))
    } else {
        let mut s = u64_to_decimal(n / 10);
        s.append(digit_str(n % 10));
        proof {
            assert(s@ =~= decimal((n / 10) as nat).push(digit_char((n % 10) as nat)));
        }
        s
    }
}

/// Decimal representation of `n`, left-padded with zeros to three characters
/// (`format!("{:03}", n)`).
pub fn u64_to_decimal_pad3(n: u64) -> (r: String)
    ensures r@ == zero_pad(decimal(n as nat), 3),
{
    let d = u64_to_decimal(n);
    let len = d.as_str().unicode_len();
    if len >= 3 {
        d
    } else if len == 2 {
        proof { reveal_strlit("0"); }
        let r = cat2("0", d.as_str());
        assert(r@ =~= zero_pad(decimal(n as nat), 3));
        r
    } else {
        proof { reveal_strlit("00"); }
        let r = cat2("00", d.as_str());
        proof {
            assert(decimal(n as nat).len() >= 1) by {
                if (n as nat) >= 10 {} 
            }
        }
        assert(r@ =~= zero_pad(decimal(n as nat), 3));
        r
    }
}

/// `s` begins with `p`.
pub open spec fn starts_with(s: Seq<char>, p: Seq<char>) -> bool {
    p.len() <= s.len() && s.subrange(0, p.len() as int) == p
}

/// Whether `s` begins with `p`.
pub fn has_prefix(s: &str, p: &str) -> (r: bool)
    ensures r == starts_with(s@, p@),
{
    let n = s.unicode_len();
    let m = p.unicode_len();
    if m > n {
        return false;
    }
    let mut i: usize = 0;
    while i < m
        invariant
            i <= m,
            m == p@.len(),
            m <= n,
            n == s@.len(),
            forall|k: int| 0 <= k < i ==> s@[k] == p@[k],
        decreases m - i,
    {
        if s.get_char(i) != p.get_char(i) {
            proof { assert(s@.subrange(0, m as int)[i as int] != p@[i as int]); }
            return false;
        }
        i = i + 1;
    }
    assert(s@.subrange(0, m as int) =~= p@);
    true
}

/// The parts joined with `sep` between consecutive ones.
pub open spec fn joined(parts: Seq<Seq<char>>, sep: Seq<char>) -> Seq<char>
    decreases parts.len(),
{
    if parts.len() == 0 {
        Seq::empty()
    } else if parts.len() == 1 {
        parts[0]
    } else {
        joined(parts.drop_last(), sep) + sep + parts.last()
    }
}

/// The strings joined with `sep` between consecutive ones.
pub fn join_strings(parts: &Vec<String>, sep: &str) -> (r: String)
    ensures r@ == joined(views(parts@), sep@),
{
    let mut r = String::new();
    let mut i: usize = 0;
    while i < parts.len()
        invariant
            i <= parts@.len(),
            r@ == joined(views(parts@).take(i as int), sep@),
        decreases parts@.len() - i,
    {
        proof {
            let a = views(parts@).take(i + 1);
            assert(a.drop_last() =~= views(parts@).take(i as int));
            assert(a.last() == parts@[i as int]@);
            if i == 0 { assert(a[0] == parts@[0]@); }
        }
        if i > 0 {
            r.append(sep);
        }
        r.append(parts[i].as_str());
        i = i + 1;
    }
    proof { lemma_take_all(views(parts@)); }
    r
}

} // verus!
