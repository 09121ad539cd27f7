//! Sequential ID counters for every entity type.
use vstd::prelude::*;
use crate::strutil::{
    ascii_upper, cat3, chars_of, decimal, is_ascii_seq, owned, spec_to_uppercase, string_from_chars, to_uppercase,
    u64_to_decimal_pad3, zero_pad,
};

verus! {

/// The entity types tracked by the counter system.
pub open spec fn entity_type_list() -> Seq<Seq<char>> {
    seq!["UDE"@, "RC"@, "INJ"@, "NC"@, "GOAL"@, "OBJ"@, "WANT"@, "OBS"@, "IO"@, "INT"@, "DE"@,
        "REQ"@, "PRE"@, "TREE"@, "LINK"@, "ASM"@, "NBR"@, "MACRO"@, "KN"@]
}

/// All entity types tracked by the counter system.
pub fn entity_types() -> (r: Vec<&'static str>)
    ensures r@.len() == entity_type_list().len(),
        forall|i: int| 0 <= i < r@.len() ==> (#[trigger] r@[i])@ == entity_type_list()[i],
{
    let r = vec!["UDE", "RC", "INJ", "NC", "GOAL", "OBJ", "WANT", "OBS", "IO", "INT", "DE",
        "REQ", "PRE", "TREE", "LINK", "ASM", "NBR", "MACRO", "KN"];
    assert(r@.len() == 19);
    r
}

/// The value of a list of `(key, value)` pairs as a map; a later pair for a
/// key overrides an earlier one.
pub open spec fn pairs_map(s: Seq<(String, u64)>) -> Map<Seq<char>, u64>
    decreases s.len(),
{
    if s.len() == 0 {
        Map::empty()
    } else {
        pairs_map(s.drop_last()).insert(s.last().0@, s.last().1)
    }
}

/// Counter values by entity type.
#[derive(Debug, Clone)]
pub struct CounterMap {
    entries: Vec<(String, u64)>,
}

impl View for CounterMap {
    type V = Map<Seq<char>, u64>;

    closed spec fn view(&self) -> Map<Seq<char>, u64> {
        pairs_map(self.entries@)
    }
}

impl CounterMap {
    pub closed spec fn keys_unique(&self) -> bool {
        forall|a: int, b: int| 0 <= a < b < self.entries@.len() ==> #[trigger] self.entries@[a].0@ != #[trigger] self.entries@[b].0@
    }

    proof fn lemma_lookup(s: Seq<(String, u64)>, i: int)
        requires
            0 <= i < s.len(),
            forall|a: int, b: int| 0 <= a < b < s.len() ==> #[trigger] s[a].0@ != #[trigger] s[b].0@,
        ensures
            pairs_map(s).contains_key(s[i].0@),
            pairs_map(s)[s[i].0@] == s[i].1,
        decreases s.len(),
    {
        if i < s.len() - 1 {
            Self::lemma_lookup(s.drop_last(), i);
            assert(s.drop_last()[i] == s[i]);
        }
    }

    proof fn lemma_absent(s: Seq<(String, u64)>, k: Seq<char>)
        requires forall|a: int| 0 <= a < s.len() ==> #[trigger] s[a].0@ != k,
        ensures !pairs_map(s).contains_key(k),
        decreases s.len(),
    {
        if s.len() > 0 {
            Self::lemma_absent(s.drop_last(), k);
        }
    }

    proof fn lemma_update(s: Seq<(String, u64)>, i: int, v: u64)
        requires
            0 <= i < s.len(),
            forall|a: int, b: int| 0 <= a < b < s.len() ==> #[trigger] s[a].0@ != #[trigger] s[b].0@,
        ensures
            pairs_map(s.update(i, (s[i].0, v))) == pairs_map(s).insert(s[i].0@, v),
        decreases s.len(),
    {
        let t = s.update(i, (s[i].0, v));
        if i == s.len() - 1 {
            assert(t.drop_last() =~= s.drop_last());
            Self::lemma_absent(s.drop_last(), s[i].0@);
            assert(pairs_map(t) =~= pairs_map(s).insert(s[i].0@, v));
        } else {
            Self::lemma_update(s.drop_last(), i, v);
            assert(t.drop_last() =~= s.drop_last().update(i, (s[i].0, v)));
            assert(pairs_map(t) =~= pairs_map(s).insert(s[i].0@, v));
        }
    }

    /// An empty counter map.
    pub fn new() -> (r: Self)
        ensures r@ == Map::<Seq<char>, u64>::empty(), r.keys_unique(),
    {
        CounterMap { entries: Vec::new() }
    }

    /// The value of a counter, if present.
    pub fn get(&self, key: &str) -> (r: Option<&u64>)
        requires self.keys_unique(),
        ensures
            match r {
                Some(v) => self@.contains_key(key@) && self@[key@] == *v,
                None => !self@.contains_key(key@),
            },
    {
        let k = owned(key);
        let mut i: usize = 0;
        while i < self.entries.len()
            invariant
                i <= self.entries@.len(),
                k@ == key@,
                self.keys_unique(),
                forall|a: int| 0 <= a < i ==> #[trigger] self.entries@[a].0@ != key@,
            decreases self.entries@.len() - i,
        {
            if self.entries[i].0 == k {
                proof { Self::lemma_lookup(self.entries@, i as int); }
                return Some(&self.entries[i].1);
            }
            i = i + 1;
        }
        proof { Self::lemma_absent(self.entries@, key@); }
        None
    }

    /// Sets the counter `key` to `value`.
    pub fn set(&mut self, key: String, value: u64)
        requires old(self).keys_unique(),
        ensures final(self).keys_unique(), final(self)@ == old(self)@.insert(key@, value),
    {
        let mut i: usize = 0;
        while i < self.entries.len()
            invariant
                i <= self.entries@.len(),
                self.entries@ == old(self).entries@,
                old(self).keys_unique(),
                forall|a: int| 0 <= a < i ==> #[trigger] self.entries@[a].0@ != key@,
            decreases self.entries@.len() - i,
        {
            if self.entries[i].0 == key {
                let ghost s = self.entries@;
                let k = self.entries[i].0.clone();
                self.entries.set(i, (k, value));
                proof {
                    Self::lemma_update(s, i as int, value);
                    assert(self.entries@ =~= s.update(i as int, (s[i as int].0, value)));
                    assert forall|a: int, b: int| 0 <= a < b < self.entries@.len() implies #[trigger] self.entries@[a].0@ != #[trigger] self.entries@[b].0@ by {
                        assert(self.entries@[a].0@ == s[a].0@);
                        assert(self.entries@[b].0@ == s[b].0@);
                    }
                }
                return;
            }
            i = i + 1;
        }
        let ghost s = self.entries@;
        self.entries.push((key, value));
        proof {
            assert(self.entries@.drop_last() =~= s);
        }
    }

    /// The `(key, value)` pairs, each key once.
    pub fn entries(&self) -> (r: &Vec<(String, u64)>)
        ensures pairs_map(r@) == self@,
            forall|a: int, b: int| 0 <= a < b < r@.len() && self.keys_unique() ==> #[trigger] r@[a].0@ != #[trigger] r@[b].0@,
    {
        &self.entries
    }
}

/// Sequential counter state for all entity types in the workspace.
#[derive(Debug, Clone)]
pub struct Counters {
    pub values: CounterMap,
}

/// The value of counter `key` (zero when absent).
pub open spec fn count_of(m: Map<Seq<char>, u64>, key: Seq<char>) -> nat {
    if m.contains_key(key) { m[key] as nat } else { 0 }
}

/// The counters after `n` IDs of type `key` were minted.
pub open spec fn minted(m: Map<Seq<char>, u64>, key: Seq<char>, n: nat) -> Map<Seq<char>, u64> {
    m.insert(key, (count_of(m, key) + n) as u64)
}

/// The `k`-th ID minted of type `key` from counters `m` (`k` from 1).
pub open spec fn nth_id(m: Map<Seq<char>, u64>, key: Seq<char>, k: nat) -> Seq<char> {
    format_id(key, count_of(m, key) + k)
}

/// Minting `a` and then `b` IDs of one type is minting `a + b`; the IDs
/// of the second round continue the count of the first.
pub proof fn lemma_mint_chain(m: Map<Seq<char>, u64>, key: Seq<char>, a: nat, b: nat, k: nat)
    requires count_of(m, key) + a <= u64::MAX,
    ensures
        minted(minted(m, key, a), key, b) == minted(m, key, a + b),
        nth_id(minted(m, key, a), key, k) == nth_id(m, key, a + k),
        count_of(minted(m, key, a), key) == count_of(m, key) + a,
{
    assert(minted(minted(m, key, a), key, b) =~= minted(m, key, a + b));
    assert(count_of(m, key) + a + k == count_of(m, key) + (a + k));
}

/// Minting IDs of one type leaves the count of every other type alone.
pub proof fn lemma_mint_other(m: Map<Seq<char>, u64>, key: Seq<char>, other: Seq<char>, a: nat)
    requires key != other,
    ensures count_of(minted(m, key, a), other) == count_of(m, other),
{
}

/// The digits of a number read back give the number.
proof fn lemma_decimal_value(n: nat)
    ensures digits_value(decimal(n)) == n,
    decreases n,
{
    if n >= 10 {
        lemma_decimal_value(n / 10);
        let d = decimal(n / 10).push(crate::strutil::digit_char(n % 10));
        assert(d.drop_last() =~= decimal(n / 10));
        assert(d.last() == crate::strutil::digit_char(n % 10));
        assert(((crate::strutil::digit_char(n % 10) as u32) - 48) as nat == n % 10);
        assert(digits_value(d) == digits_value(decimal(n / 10)) * 10 + n % 10);
        assert((n / 10) * 10 + n % 10 == n) by (nonlinear_arith);
        assert(digits_value(decimal(n / 10)) * 10 == (n / 10) * 10);
        assert(decimal(n) == d);
        assert(digits_value(d) == n);
    } else {
        assert(decimal(n).drop_last() =~= Seq::<char>::empty());
        assert(decimal(n).last() == crate::strutil::digit_char(n));
        assert(((crate::strutil::digit_char(n) as u32) - 48) as nat == n);
        assert(digits_value(decimal(n).drop_last()) == 0);
        assert(digits_value(decimal(n)) == n);
    }
}

/// Leading zeros do not change the value of a digit string.
proof fn lemma_leading_zeros(k: nat, s: Seq<char>)
    ensures digits_value(Seq::new(k, |i: int| '0') + s) == digits_value(s),
    decreases s.len(), k,
{
    let z = Seq::new(k, |i: int| '0');
    if s.len() == 0 {
        assert(z + s =~= z);
        if k > 0 {
            assert(z.drop_last() =~= Seq::new((k - 1) as nat, |i: int| '0'));
            lemma_leading_zeros((k - 1) as nat, s);
            assert(Seq::new((k - 1) as nat, |i: int| '0') + s =~= z.drop_last());
        }
    } else {
        lemma_leading_zeros(k, s.drop_last());
        assert((z + s).drop_last() =~= z + s.drop_last());
        assert((z + s).last() == s.last());
    }
}

/// Two counter values give the same ID only when they are equal.
proof fn lemma_format_id_injective(prefix: Seq<char>, a: nat, b: nat)
    requires format_id(prefix, a) == format_id(prefix, b),
    ensures a == b,
{
    let pa = zero_pad(decimal(a), 3);
    let pb = zero_pad(decimal(b), 3);
    let head = prefix + "-"@;
    assert(format_id(prefix, a) == head + pa);
    assert(format_id(prefix, b) == head + pb);
    assert((head + pa).subrange(head.len() as int, (head + pa).len() as int) =~= pa);
    assert((head + pb).subrange(head.len() as int, (head + pb).len() as int) =~= pb);
    lemma_decimal_value(a);
    lemma_decimal_value(b);
    if decimal(a).len() < 3 { lemma_leading_zeros((3 - decimal(a).len()) as nat, decimal(a)); }
    if decimal(b).len() < 3 { lemma_leading_zeros((3 - decimal(b).len()) as nat, decimal(b)); }
}

/// IDs are unique: the `a`-th and `b`-th IDs minted of one type from the
/// same counters differ whenever `a` and `b` do.
pub proof fn law_minted_ids_distinct(m: Map<Seq<char>, u64>, key: Seq<char>, a: nat, b: nat)
    requires a != b,
    ensures nth_id(m, key, a) != nth_id(m, key, b),
{
    if nth_id(m, key, a) == nth_id(m, key, b) {
        lemma_format_id_injective(key, count_of(m, key) + a, count_of(m, key) + b);
    }
}

/// The ID minted for a counter value: `<TYPE>-<n>`, `n` zero-padded to three digits.
pub open spec fn format_id(prefix: Seq<char>, n: nat) -> Seq<char> {
    prefix + "-"@ + zero_pad(decimal(n), 3)
}

impl Counters {
    /// The invariant of the counter state: each type appears once.
    pub open spec fn wf(&self) -> bool {
        self.values.keys_unique()
    }

    /// Create a zeroed counter set with all known entity types.
    pub fn new_zeroed() -> (r: Self)
        ensures
            r.wf(),
            forall|k: Seq<char>| r.values@.contains_key(k) <==> entity_type_list().contains(k),
            forall|k: Seq<char>| #[trigger] r.values@.contains_key(k) ==> r.values@[k] == 0,
    {
        let types = entity_types();
        let mut values = CounterMap::new();
        let mut i: usize = 0;
        while i < types.len()
            invariant
                i <= types@.len(),
                types@.len() == entity_type_list().len(),
                forall|q: int| 0 <= q < types@.len() ==> (#[trigger] types@[q])@ == entity_type_list()[q],
                values.keys_unique(),
                forall|k: Seq<char>| values@.contains_key(k) <==> entity_type_list().subrange(0, i as int).contains(k),
                forall|k: Seq<char>| #[trigger] values@.contains_key(k) ==> values@[k] == 0,
            decreases types@.len() - i,
        {
            values.set(owned(types[i]), 0);
            proof {
                let l = entity_type_list();
                assert forall|k: Seq<char>| values@.contains_key(k) <==> l.subrange(0, i + 1).contains(k) by {
                    if l.subrange(0, i + 1).contains(k) {
                        let q = choose|q: int| 0 <= q < i + 1 && #[trigger] l.subrange(0, i + 1)[q] == k;
                        if q < i { assert(l.subrange(0, i as int)[q] == k); }
                    }
                    if l.subrange(0, i as int).contains(k) {
                        let q = choose|q: int| 0 <= q < i && #[trigger] l.subrange(0, i as int)[q] == k;
                        assert(l.subrange(0, i + 1)[q] == k);
                    }
                    assert(l.subrange(0, i + 1)[i as int] == l[i as int]);
                }
            }
            i = i + 1;
        }
        proof {
            assert(entity_type_list().subrange(0, 19) =~= entity_type_list());
        }
        Counters { values }
    }

    /// Room for `n` more IDs of type `key`.
    pub open spec fn room(&self, key: Seq<char>, n: nat) -> bool {
        count_of(self.values@, key) + n <= u64::MAX
    }

    /// Increment the counter `key` (taken as it is) and return the
    /// formatted ID.
    pub fn mint(&mut self, key: &str) -> (r: String)
        requires
            old(self).wf(),
            old(self).room(key@, 1),
        ensures
            final(self).wf(),
            final(self).values@ == minted(old(self).values@, key@, 1),
            r@ == nth_id(old(self).values@, key@, 1),
    {
        let prev = match self.values.get(key) {
            Some(v) => *v,
            None => 0,
        };
        let n = prev + 1;
        self.values.set(owned(key), n);
        let pad = u64_to_decimal_pad3(n);
        cat3(key, "-", pad.as_str())
    }

    /// Increment the counter for `entity_type` (taken in upper case) and
    /// return the formatted ID: the type is upper-cased and counted by
    /// `mint`, which takes the upper-cased key.
    pub fn next(&mut self, entity_type: &str) -> (r: String)
        requires
            old(self).wf(),
            old(self).room(spec_to_uppercase(entity_type@), 1),
        ensures
            final(self).wf(),
            final(self).values@ == minted(old(self).values@, spec_to_uppercase(entity_type@), 1),
            r@ == nth_id(old(self).values@, spec_to_uppercase(entity_type@), 1),
            is_ascii_seq(entity_type@) ==> final(self).values@ == minted(old(self).values@, ascii_upper(entity_type@), 1)
                && r@ == nth_id(old(self).values@, ascii_upper(entity_type@), 1),
    {
        let upper = to_uppercase(entity_type);
        self.mint(upper.as_str())
    }

    /// The next ID of `entity_type` (taken in upper case), or `None`, with
    /// the counters unchanged, when that counter is exhausted.
    pub fn try_next(&mut self, entity_type: &str) -> (r: Option<String>)
        requires old(self).wf(),
        ensures
            final(self).wf(),
            old(self).room(spec_to_uppercase(entity_type@), 1) ==> (r matches Some(id)
                && final(self).values@ == minted(old(self).values@, spec_to_uppercase(entity_type@), 1)
                && id@ == nth_id(old(self).values@, spec_to_uppercase(entity_type@), 1)),
            !old(self).room(spec_to_uppercase(entity_type@), 1) ==> r is None && final(self).values@ == old(self).values@,
    {
        let upper = to_uppercase(entity_type);
        let has_room = match self.values.get(upper.as_str()) {
            Some(v) => *v < u64::MAX,
            None => true,
        };
        if has_room { Some(self.next(entity_type)) } else { None }
    }

    /// Path to the counters file within the `.ltp` directory.
    pub fn file_path(root: &str) -> (r: String)
        ensures r@ == crate::workspace::paths::path_join(crate::workspace::paths::path_join(root@, ".ltp"@), "counters.json"@),
    {
        let d = crate::workspace::paths::join(root, ".ltp");
        crate::workspace::paths::join(d.as_str(), "counters.json")
    }

    /// Raises the counter of the type named by a stored file name
    /// (`<PREFIX>-<number>.json`) to at least that number. Other names are
    /// ignored.
    pub fn observe_file_name(&mut self, name: &str)
        requires old(self).wf(),
        ensures
            final(self).wf(),
            match file_id_parts(name@) {
                Some((prefix, num)) => {
                    let key = spec_to_uppercase(prefix);
                    let cur: nat = if old(self).values@.contains_key(key) { old(self).values@[key] as nat } else { 0 };
                    final(self).values@ == if num > cur {
                        old(self).values@.insert(key, num as u64)
                    } else if old(self).values@.contains_key(key) {
                        old(self).values@
                    } else {
                        old(self).values@.insert(key, 0)
                    }
                },
                None => final(self).values@ == old(self).values@,
            },
    {
        let chars = chars_of(name);
        match split_file_id(&chars) {
            Some((prefix, num)) => {
                let p = string_from_chars(&prefix);
                let upper = to_uppercase(p.as_str());
                self.observe(upper, num);
            },
            None => {},
        }
    }

    /// Raises the counter `key` (taken as it is) to at least `num`; a missing
    /// counter is created.
    pub fn observe(&mut self, key: String, num: u64)
        requires old(self).wf(),
        ensures
            final(self).wf(),
            ({
                let cur: nat = if old(self).values@.contains_key(key@) { old(self).values@[key@] as nat } else { 0 };
                final(self).values@ == if num > cur {
                    old(self).values@.insert(key@, num)
                } else if old(self).values@.contains_key(key@) {
                    old(self).values@
                } else {
                    old(self).values@.insert(key@, 0)
                }
            }),
    {
        let cur = match self.values.get(key.as_str()) {
            Some(v) => *v,
            None => 0,
        };
        if num > cur {
            self.values.set(key, num);
        } else if self.values.get(key.as_str()).is_none() {
            self.values.set(key, 0);
        }
    }
}

/// Value of a string of ASCII digits.
pub open spec fn digits_value(s: Seq<char>) -> nat
    decreases s.len(),
{
    if s.len() == 0 { 0 } else { digits_value(s.drop_last()) * 10 + ((s.last() as u32) - 48) as nat }
}

pub open spec fn all_digits(s: Seq<char>) -> bool {
    forall|i: int| 0 <= i < s.len() ==> '0' <= #[trigger] s[i] && s[i] <= '9'
}

/// `str::parse::<u64>`: an optional `+`, then at least one ASCII digit,
/// with a value that fits in 64 bits.
pub open spec fn parse_u64(s: Seq<char>) -> Option<nat> {
    let d = if s.len() > 0 && s[0] == '+' { s.drop_first() } else { s };
    if d.len() > 0 && all_digits(d) && digits_value(d) <= u64::MAX { Some(digits_value(d)) } else { None }
}

/// The number named by a file name `<number>.json`.
pub open spec fn stem_number(name: Seq<char>) -> Option<nat> {
    if name.len() >= 5 && name.subrange(name.len() - 5, name.len() as int) == ".json"@ {
        parse_u64(name.subrange(0, name.len() - 5))
    } else {
        None
    }
}

/// Position of the last `-` in `s`.
pub open spec fn last_dash(s: Seq<char>) -> Option<int>
    decreases s.len(),
{
    if s.len() == 0 {
        None
    } else if s.last() == '-' {
        Some(s.len() - 1)
    } else {
        last_dash(s.drop_last())
    }
}

/// The prefix and number of a stored file name `<prefix>-<number>.json`
/// (split at the last `-` of the stem).
pub open spec fn file_id_parts(name: Seq<char>) -> Option<(Seq<char>, nat)> {
    if name.len() >= 5 && name.subrange(name.len() - 5, name.len() as int) == ".json"@ {
        let stem = name.subrange(0, name.len() - 5);
        match last_dash(stem) {
            Some(d) => match parse_u64(stem.subrange(d + 1, stem.len() as int)) {
                Some(n) => Some((stem.subrange(0, d), n)),
                None => None,
            },
            None => None,
        }
    } else {
        None
    }
}

proof fn lemma_last_dash(s: Seq<char>, i: int)
    requires
        0 <= i < s.len(),
        s[i] == '-',
        forall|k: int| i < k < s.len() ==> #[trigger] s[k] != '-',
    ensures last_dash(s) == Some(i),
    decreases s.len(),
{
    if i < s.len() - 1 {
        lemma_last_dash(s.drop_last(), i);
    }
}

proof fn lemma_no_dash(s: Seq<char>)
    requires forall|k: int| 0 <= k < s.len() ==> #[trigger] s[k] != '-',
    ensures last_dash(s) is None,
    decreases s.len(),
{
    if s.len() > 0 {
        lemma_no_dash(s.drop_last());
    }
}

/// Parses a run of decimal digits (with an optional leading `+`).
pub fn parse_decimal(s: &Vec<char>, from: usize) -> (r: Option<u64>)
    requires from <= s@.len(),
    ensures
        match parse_u64(s@.subrange(from as int, s@.len() as int)) {
            Some(n) => r == Some(n as u64),
            None => r is None,
        },
{
    let ghost t = s@.subrange(from as int, s@.len() as int);
    let mut start = from;
    if start < s.len() && s[start] == '+' {
        start = start + 1;
    }
    let ghost d = s@.subrange(start as int, s@.len() as int);
    proof {
        if t.len() > 0 && t[0] == '+' {
            assert(t.drop_first() =~= d);
        } else {
            assert(t =~= d);
        }
    }
    let ghost expected = if d.len() > 0 && all_digits(d) && digits_value(d) <= u64::MAX { Some(digits_value(d)) } else { None };
    assert(parse_u64(t) == expected);
    if start >= s.len() {
        return None;
    }
    let mut v: u64 = 0;
    let mut i = start;
    while i < s.len()
        invariant
            start <= i <= s@.len(),
            start < s@.len(),
            d == s@.subrange(start as int, s@.len() as int),
            t == s@.subrange(from as int, s@.len() as int),
            parse_u64(t) == expected,
            expected == if d.len() > 0 && all_digits(d) && digits_value(d) <= u64::MAX { Some(digits_value(d)) } else { None },
            all_digits(s@.subrange(start as int, i as int)),
            v as nat == digits_value(s@.subrange(start as int, i as int)),
        decreases s@.len() - i,
    {
        let c = s[i];
        proof {
            let p = s@.subrange(start as int, i + 1);
            assert(p.drop_last() =~= s@.subrange(start as int, i as int));
            assert(p.last() == c);
        }
        if !('0' <= c && c <= '9') {
            proof {
                assert(d[i - start] == c);
                assert(!all_digits(d));
            }
            return None;
        }
        let digit = (c as u32 - 48) as u64;
        if v > (u64::MAX - digit) / 10 {
            proof {
                lemma_digits_monotone(d, i - start + 1);
                assert(digits_value(s@.subrange(start as int, i + 1)) == v * 10 + digit);
                assert(v * 10 + digit > u64::MAX) by (nonlinear_arith)
                    requires v > (u64::MAX - digit) / 10, digit <= 9;
                assert(d.subrange(0, i - start + 1) =~= s@.subrange(start as int, i + 1));
                if all_digits(d) {
                    assert(digits_value(d) > u64::MAX);
                }
            }
            return None;
        }
        proof {
            assert(v * 10 + digit <= u64::MAX) by (nonlinear_arith)
                requires v <= (u64::MAX - digit) / 10, digit <= 9;
        }
        v = v * 10 + digit;
        i = i + 1;
        proof {
            assert forall|k: int| 0 <= k < i - start implies '0' <= #[trigger] s@.subrange(start as int, i as int)[k]
                && s@.subrange(start as int, i as int)[k] <= '9' by {
                if k < i - 1 - start {
                    assert(s@.subrange(start as int, i as int)[k] == s@.subrange(start as int, i - 1)[k]);
                }
            }
        }
    }
    assert(s@.subrange(start as int, s@.len() as int) =~= d);
    Some(v)
}

/// `digits_value` of a prefix never exceeds that of the whole digit string.
proof fn lemma_digits_monotone(d: Seq<char>, k: int)
    requires 0 <= k <= d.len(),
    ensures all_digits(d) ==> digits_value(d.subrange(0, k)) <= digits_value(d),
    decreases d.len() - k,
{
    if k < d.len() && all_digits(d) {
        lemma_digits_monotone(d, k + 1);
        let p = d.subrange(0, k + 1);
        assert(p.drop_last() =~= d.subrange(0, k));
        assert('0' <= p.last() && p.last() <= '9');
        assert(digits_value(p) >= digits_value(d.subrange(0, k))) by (nonlinear_arith)
            requires digits_value(p) == digits_value(d.subrange(0, k)) * 10 + ((p.last() as u32) - 48) as nat;
    } else if k == d.len() {
        assert(d.subrange(0, k) =~= d);
    }
}

/// Splits a stored file name into its prefix and number.
fn split_file_id(name: &Vec<char>) -> (r: Option<(Vec<char>, u64)>)
    ensures
        match file_id_parts(name@) {
            Some((prefix, n)) => r matches Some((p, v)) && p@ == prefix && v as nat == n,
            None => r is None,
        },
{
    let n = name.len();
    proof { reveal_strlit(".json"); }
    if n < 5 || name[n - 5] != '.' || name[n - 4] != 'j' || name[n - 3] != 's' || name[n - 2] != 'o' || name[n - 1] != 'n' {
        proof {
            if n >= 5 {
                let t = name@.subrange(n - 5, n as int);
                if t == ".json"@ {
                    assert(t[0] == '.' && t[1] == 'j' && t[2] == 's' && t[3] == 'o' && t[4] == 'n');
                }
            }
        }
        return None;
    }
    assert(name@.subrange(n - 5, n as int) =~= ".json"@);
    let stem_len = n - 5;
    let ghost stem = name@.subrange(0, stem_len as int);
    let mut d = stem_len;
    while d > 0 && name[d - 1] != '-'
        invariant
            d <= stem_len,
            stem_len + 5 == name@.len(),
            stem == name@.subrange(0, stem_len as int),
            forall|k: int| d <= k < stem_len ==> #[trigger] stem[k] != '-',
        decreases d,
    {
        d = d - 1;
    }
    if d == 0 {
        proof { lemma_no_dash(stem); }
        return None;
    }
    let dash = d - 1;
    proof { lemma_last_dash(stem, dash as int); }
    let mut digits: Vec<char> = Vec::new();
    let mut i = dash + 1;
    while i < stem_len
        invariant
            dash < i <= stem_len,
            stem_len + 5 == name@.len(),
            digits@ == name@.subrange(dash + 1, i as int),
        decreases stem_len - i,
    {
        digits.push(name[i]);
        i = i + 1;
        assert(digits@ =~= name@.subrange(dash + 1, i as int));
    }
    assert(digits@.subrange(0, digits@.len() as int) =~= stem.subrange(dash + 1, stem.len() as int));
    match parse_decimal(&digits, 0) {
        Some(v) => {
            let mut prefix: Vec<char> = Vec::new();
            let mut q: usize = 0;
            while q < dash
                invariant
                    q <= dash,
                    dash < stem_len,
                    stem_len + 5 == name@.len(),
                    prefix@ == name@.subrange(0, q as int),
                decreases dash - q,
            {
                prefix.push(name[q]);
                q = q + 1;
                assert(prefix@ =~= name@.subrange(0, q as int));
            }
            assert(prefix@ =~= stem.subrange(0, dash as int));
            Some((prefix, v))
        },
        None => None,
    }
}

} // verus!
