//! The parameter map handed to handlers, and typed readers over it.

use vstd::prelude::*;
use vstd::string::*;

use crate::pattern::pairs_view;

verus! {

/// A map from parameter names to their text, with unique keys.
pub struct Params {
    entries: Vec<(String, String)>,
    map: Ghost<Map<Seq<char>, Seq<char>>>,
}

impl View for Params {
    type V = Map<Seq<char>, Seq<char>>;

    closed spec fn view(&self) -> Map<Seq<char>, Seq<char>> {
        self.map@
    }
}

/// The map that inserting `pairs` one after the other, into an empty map, gives.
pub open spec fn pairs_map(pairs: Seq<(Seq<char>, Seq<char>)>) -> Map<Seq<char>, Seq<char>>
    decreases pairs.len(),
{
    if pairs.len() == 0 {
        Map::empty()
    } else {
        pairs_map(pairs.drop_last()).insert(pairs.last().0, pairs.last().1)
    }
}

/// The names of a sequence of (name, value) pairs.
pub open spec fn pair_names(pairs: Seq<(Seq<char>, Seq<char>)>) -> Seq<Seq<char>> {
    pairs.map_values(|p: (Seq<char>, Seq<char>)| p.0)
}

/// Inserting pairs one after the other files exactly their names.
pub proof fn lemma_pairs_map_dom(pairs: Seq<(Seq<char>, Seq<char>)>)
    ensures
        pairs_map(pairs).dom() == pair_names(pairs).to_set(),
    decreases pairs.len(),
{
    if pairs.len() > 0 {
        let rest = pairs.drop_last();
        lemma_pairs_map_dom(rest);
        assert(pair_names(pairs) =~= pair_names(rest).push(pairs.last().0));
        assert(pairs_map(pairs).dom() =~= pair_names(pairs).to_set()) by {
            assert forall|k: Seq<char>| pair_names(pairs).to_set().contains(k) implies pairs_map(pairs).dom().contains(k) by {
                let j = choose|j: int| 0 <= j < pair_names(pairs).len() && pair_names(pairs)[j] == k;
                if j < rest.len() {
                    assert(pair_names(rest)[j] == k);
                }
            }
            assert forall|k: Seq<char>| pairs_map(pairs).dom().contains(k) implies pair_names(pairs).to_set().contains(k) by {
                if k != pairs.last().0 {
                    assert(pair_names(rest).to_set().contains(k));
                    let j = choose|j: int| 0 <= j < pair_names(rest).len() && pair_names(rest)[j] == k;
                    assert(pair_names(pairs)[j] == k);
                } else {
                    assert(pair_names(pairs)[pairs.len() - 1] == k);
                }
            }
        }
    } else {
        assert(pairs_map(pairs).dom() =~= pair_names(pairs).to_set());
    }
}

/// Where the names are distinct, each pair's value is filed under its name.
pub proof fn lemma_pairs_map_values(pairs: Seq<(Seq<char>, Seq<char>)>)
    requires
        pair_names(pairs).no_duplicates(),
    ensures
        forall|k: int|
            0 <= k < pairs.len() ==> #[trigger] pairs_map(pairs).contains_key(pairs[k].0)
                && pairs_map(pairs)[pairs[k].0] == pairs[k].1,
    decreases pairs.len(),
{
    if pairs.len() > 0 {
        let rest = pairs.drop_last();
        assert(pair_names(rest).no_duplicates()) by {
            assert forall|a: int, b: int| 0 <= a < b < pair_names(rest).len() implies pair_names(rest)[a] != pair_names(rest)[b] by {
                assert(pair_names(pairs)[a] != pair_names(pairs)[b]);
            }
        }
        lemma_pairs_map_values(rest);
        assert forall|k: int| 0 <= k < pairs.len() implies #[trigger] pairs_map(pairs).contains_key(pairs[k].0)
            && pairs_map(pairs)[pairs[k].0] == pairs[k].1 by {
            let last = pairs.last();
            assert(pairs_map(pairs) == pairs_map(rest).insert(last.0, last.1));
            if k < rest.len() {
                assert(rest[k] == pairs[k]);
                assert(pair_names(pairs)[k] == pairs[k].0);
                assert(pair_names(pairs)[pairs.len() - 1] == last.0);
                assert(pair_names(pairs)[k] != pair_names(pairs)[pairs.len() - 1]);
                assert(pairs_map(rest).contains_key(rest[k].0));
            }
        }
    }
}

/// The text stored under `name`, if any.
pub open spec fn lookup(m: Map<Seq<char>, Seq<char>>, name: Seq<char>) -> Option<Seq<char>> {
    if m.contains_key(name) {
        Some(m[name])
    } else {
        None
    }
}

pub open spec fn is_digit(c: char) -> bool {
    '0' <= c && c <= '9'
}

/// A non-empty run of decimal digits.
pub open spec fn all_digits(s: Seq<char>) -> bool {
    s.len() > 0 && forall|i: int| 0 <= i < s.len() ==> is_digit(#[trigger] s[i])
}

/// The number that a run of decimal digits spells.
pub open spec fn digits_value(s: Seq<char>) -> int
    decreases s.len(),
{
    if s.len() == 0 {
        0
    } else {
        digits_value(s.drop_last()) * 10 + (s.last() as int - '0' as int)
    }
}

/// The integer that `s` spells: digits with an optional leading '+', or,
/// where `signed`, a leading '-'.
pub open spec fn integer_value(s: Seq<char>, signed: bool) -> Option<int> {
    if s.len() > 0 && s[0] == '+' {
        if all_digits(s.skip(1)) {
            Some(digits_value(s.skip(1)))
        } else {
            None
        }
    } else if s.len() > 0 && s[0] == '-' {
        if signed && all_digits(s.skip(1)) {
            Some(-digits_value(s.skip(1)))
        } else {
            None
        }
    } else if all_digits(s) {
        Some(digits_value(s))
    } else {
        None
    }
}

/// The integer stored under `name`, where it lies in `lo..=hi`.
pub open spec fn read_integer(
    m: Map<Seq<char>, Seq<char>>,
    name: Seq<char>,
    signed: bool,
    lo: int,
    hi: int,
) -> Option<int> {
    match lookup(m, name) {
        Some(t) => match integer_value(t, signed) {
            Some(v) => if lo <= v <= hi {
                Some(v)
            } else {
                None
            },
            None => None,
        },
        None => None,
    }
}

/// The boolean stored under `name`: exactly "true" or "false".
pub open spec fn read_bool(m: Map<Seq<char>, Seq<char>>, name: Seq<char>) -> Option<bool> {
    match lookup(m, name) {
        Some(t) => if t == seq!['t', 'r', 'u', 'e'] {
            Some(true)
        } else if t == seq!['f', 'a', 'l', 's', 'e'] {
            Some(false)
        } else {
            None
        },
        None => None,
    }
}

/// Entries with unique keys, inserted one after the other, give their map.
proof fn lemma_entries_pairs_map(entries: Seq<(String, String)>, m: Map<Seq<char>, Seq<char>>)
    requires
        entries_hold(entries, m),
    ensures
        pairs_map(pairs_view(entries)) == m,
    decreases entries.len(),
{
    if entries.len() == 0 {
        assert(m =~= Map::<Seq<char>, Seq<char>>::empty()) by {
            assert forall|k: Seq<char>| !m.contains_key(k) by {}
        }
    } else {
        let last = entries.last();
        let rest = entries.drop_last();
        let mr = m.remove(last.0@);
        assert(entries_hold(rest, mr)) by {
            assert forall|i: int| 0 <= i < rest.len() implies #[trigger] mr.contains_key(rest[i].0@)
                && mr[rest[i].0@] == rest[i].1@ by {
                assert(entries[i].0@ != entries[entries.len() - 1].0@);
                assert(m.contains_key(entries[i].0@));
            }
            assert forall|k: Seq<char>| #[trigger] mr.contains_key(k) implies exists|i: int|
                0 <= i < rest.len() && #[trigger] rest[i].0@ == k by {
                let i = choose|i: int| 0 <= i < entries.len() && #[trigger] entries[i].0@ == k;
                assert(i != entries.len() - 1);
                assert(rest[i].0@ == k);
            }
        }
        lemma_entries_pairs_map(rest, mr);
        assert(pairs_view(entries).drop_last() =~= pairs_view(rest));
        assert(m.contains_key(entries[entries.len() - 1].0@));
        assert(mr.insert(last.0@, last.1@) =~= m);
    }
}

proof fn lemma_digits_value_nonneg(s: Seq<char>)
    requires
        forall|i: int| 0 <= i < s.len() ==> is_digit(#[trigger] s[i]),
    ensures
        digits_value(s) >= 0,
    decreases s.len(),
{
    if s.len() > 0 {
        lemma_digits_value_nonneg(s.drop_last());
    }
}

/// A prefix of a run of digits spells no more than the whole run.
proof fn lemma_digits_value_prefix(s: Seq<char>, k: int)
    requires
        0 <= k <= s.len(),
        forall|i: int| 0 <= i < s.len() ==> is_digit(#[trigger] s[i]),
    ensures
        digits_value(s.subrange(0, k)) <= digits_value(s),
    decreases s.len() - k,
{
    if k < s.len() {
        let t = s.subrange(0, k + 1);
        lemma_digits_value_prefix(s, k + 1);
        assert(t.drop_last() =~= s.subrange(0, k));
        lemma_digits_value_nonneg(s.subrange(0, k));
    } else {
        assert(s.subrange(0, k) =~= s);
    }
}

/// The value of the digits `s[from..]`, where it lies in `lo..=hi` (after
/// negation where `negative`).
fn parse_digits(s: &str, from: usize, negative: bool, lo: i128, hi: i128) -> (r: Option<i128>)
    requires
        from <= s@.len(),
        -0x1_0000_0000_0000_0000 <= lo <= 0,
        0 <= hi <= 0x1_0000_0000_0000_0000,
    ensures
        ({
            let d = s@.skip(from as int);
            let v = if negative {
                -digits_value(d)
            } else {
                digits_value(d)
            };
            r == if all_digits(d) && lo <= v <= hi {
                Some(v as i128)
            } else {
                None::<i128>
            }
        }),
{
    let n = s.unicode_len();
    let ghost d = s@.skip(from as int);
    if from == n {
        return None;
    }
    let mut acc: i128 = 0;
    let mut i: usize = from;
    assert(d.subrange(0, 0) =~= Seq::<char>::empty());
    while i < n
        invariant
            n == s@.len(),
            d == s@.skip(from as int),
            from <= i <= n,
            -0x1_0000_0000_0000_0000 <= lo <= 0,
            0 <= hi <= 0x1_0000_0000_0000_0000,
            forall|k: int| 0 <= k < i - from ==> is_digit(#[trigger] d[k]),
            acc == digits_value(d.subrange(0, i - from)),
            0 <= acc <= 0x1_0000_0000_0000_0000,
        decreases n - i,
    {
        let c = s.get_char(i);
        assert(d[i - from] == c);
        if !('0' <= c && c <= '9') {
            return None;
        }
        let digit = (c as u32 - '0' as u32) as i128;
        assert(d.subrange(0, i + 1 - from).drop_last() =~= d.subrange(0, i - from));
        acc = acc * 10 + digit;
        i = i + 1;
        assert(acc == digits_value(d.subrange(0, i - from)));
        if acc > 0x1_0000_0000_0000_0000 {
            proof {
                if all_digits(d) {
                    lemma_digits_value_prefix(d, i - from);
                    assert(digits_value(d) > 0x1_0000_0000_0000_0000);
                }
            }
            return None;
        }
    }
    assert(d.subrange(0, n - from) =~= d);
    if negative {
        let v = -acc;
        if lo <= v && v <= hi {
            Some(v)
        } else {
            None
        }
    } else {
        if lo <= acc && acc <= hi {
            Some(acc)
        } else {
            None
        }
    }
}

/// The integer that `s` spells, where it lies in `lo..=hi`.
fn parse_integer(s: &str, signed: bool, lo: i128, hi: i128) -> (r: Option<i128>)
    requires
        -0x1_0000_0000_0000_0000 <= lo <= 0,
        0 <= hi <= 0x1_0000_0000_0000_0000,
    ensures
        r == match integer_value(s@, signed) {
            Some(v) => if lo <= v <= hi {
                Some(v as i128)
            } else {
                None
            },
            None => None,
        },
{
    let n = s.unicode_len();
    if n > 0 && s.get_char(0) == '+' {
        parse_digits(s, 1, false, lo, hi)
    } else if n > 0 && s.get_char(0) == '-' {
        if signed {
            parse_digits(s, 1, true, lo, hi)
        } else {
            None
        }
    } else {
        assert(s@.skip(0) =~= s@);
        parse_digits(s, 0, false, lo, hi)
    }
}

/// The entries have unique keys and are exactly the pairs of `m`.
spec fn entries_hold(entries: Seq<(String, String)>, m: Map<Seq<char>, Seq<char>>) -> bool {
    &&& forall|i: int, j: int|
        0 <= i < j < entries.len() ==> #[trigger] entries[i].0@ != #[trigger] entries[j].0@
    &&& forall|i: int|
        0 <= i < entries.len() ==> #[trigger] m.contains_key(entries[i].0@) && m[entries[i].0@]
            == entries[i].1@
    &&& forall|k: Seq<char>|
        #[trigger] m.contains_key(k) ==> exists|i: int|
            0 <= i < entries.len() && #[trigger] entries[i].0@ == k
}

impl Params {
    #[verifier::type_invariant]
    closed spec fn wf(&self) -> bool {
        entries_hold(self.entries@, self.map@)
    }

    /// An empty map.
    pub fn new() -> (r: Params)
        ensures
            r@ == Map::<Seq<char>, Seq<char>>::empty(),
    {
        Params { entries: Vec::new(), map: Ghost(Map::empty()) }
    }

    /// The number of names in the map, which holds finitely many.
    pub fn len(&self) -> (r: usize)
        ensures
            r == self@.len(),
            self@.dom().finite(),
    {
        proof {
            use_type_invariant(self);
            self.lemma_len();
        }
        self.entries.len()
    }

    proof fn lemma_len(&self)
        requires
            self.wf(),
        ensures
            self.map@.len() == self.entries@.len(),
            self.map@.dom().finite(),
    {
        let keys = self.entries@.map_values(|e: (String, String)| e.0@);
        vstd::seq_lib::seq_to_set_is_finite(keys);
        assert(keys.no_duplicates()) by {
            assert forall|i: int, j: int| 0 <= i < keys.len() && 0 <= j < keys.len() && i != j implies keys[i] != keys[j] by {
                if i < j {
                    assert(self.entries@[i].0@ != self.entries@[j].0@);
                } else {
                    assert(self.entries@[j].0@ != self.entries@[i].0@);
                }
            }
        }
        keys.unique_seq_to_set();
        assert(self.map@.dom() =~= keys.to_set()) by {
            assert forall|k: Seq<char>| self.map@.dom().contains(k) implies keys.to_set().contains(k) by {
                let i = choose|i: int| 0 <= i < self.entries@.len() && #[trigger] self.entries@[i].0@ == k;
                assert(keys[i] == k);
            }
            assert forall|k: Seq<char>| keys.to_set().contains(k) implies self.map@.dom().contains(k) by {
                let i = choose|i: int| 0 <= i < keys.len() && keys[i] == k;
                assert(self.map@.contains_key(self.entries@[i].0@));
            }
        }
    }

    /// The position of `name` among the entries, if it is there.
    fn position(&self, name: &str) -> (r: Option<usize>)
        ensures
            r matches Some(i) ==> i < self.entries@.len() && self.entries@[i as int].0@ == name@,
            r is None ==> !self@.contains_key(name@),
    {
        proof {
            use_type_invariant(self);
        }
        let key = name.to_owned();
        let mut i: usize = 0;
        while i < self.entries.len()
            invariant
                self.wf(),
                key@ == name@,
                i <= self.entries@.len(),
                forall|k: int| 0 <= k < i ==> self.entries@[k].0@ != name@,
            decreases self.entries.len() - i,
        {
            if self.entries[i].0 == key {
                return Some(i);
            }
            i = i + 1;
        }
        None
    }

    /// Stores `value` under `name`, replacing what was there.
    pub fn insert(&mut self, name: String, value: String)
        ensures
            final(self)@ == old(self)@.insert(name@, value@),
    {
        proof {
            use_type_invariant(&*self);
        }
        let found = self.position(name.as_str());
        let mut taken = Params::new();
        std::mem::swap(self, &mut taken);
        proof {
            use_type_invariant(&taken);
        }
        let ghost m = taken.map@.insert(name@, value@);
        let Params { mut entries, map: _ } = taken;
        let ghost old_entries = entries@;
        match found {
            Some(i) => {
                entries.set(i, (name, value));
            },
            None => {
                entries.push((name, value));
            },
        }
        assert forall|a: int, b: int|
            0 <= a < b < entries@.len() implies #[trigger] entries@[a].0@ != #[trigger] entries@[b].0@ by {
            if found is None && b == old_entries.len() {
                assert(taken.map@.contains_key(old_entries[a].0@));
            }
        }
        assert forall|a: int|
            0 <= a < entries@.len() implies #[trigger] m.contains_key(entries@[a].0@)
                && m[entries@[a].0@] == entries@[a].1@ by {
            if found is None && a == old_entries.len() {
            } else if found == Some(a as usize) {
            } else {
                assert(taken.map@.contains_key(old_entries[a].0@));
                if let Some(i) = found {
                    if a < i {
                        assert(old_entries[a].0@ != old_entries[i as int].0@);
                    } else {
                        assert(old_entries[i as int].0@ != old_entries[a].0@);
                    }
                } else {
                }
            }
        }
        assert forall|k: Seq<char>| #[trigger] m.contains_key(k) implies exists|i: int|
            0 <= i < entries@.len() && #[trigger] entries@[i].0@ == k by {
            if k != name@ {
                let j = choose|j: int| 0 <= j < old_entries.len() && #[trigger] old_entries[j].0@ == k;
                assert(entries@[j].0@ == k);
            } else {
                match found {
                    Some(i) => assert(entries@[i as int].0@ == k),
                    None => assert(entries@[old_entries.len() as int].0@ == k),
                }
            }
        }
        assert(entries_hold(entries@, m));
        let fresh = Params { entries, map: Ghost(m) };
        *self = fresh;
    }

    /// The text stored under `name`.
    pub fn get(&self, name: &str) -> (r: Option<&String>)
        ensures
            r matches Some(v) ==> lookup(self@, name@) == Some(v@),
            r is None ==> lookup(self@, name@) is None,
    {
        proof {
            use_type_invariant(self);
        }
        match self.position(name) {
            Some(i) => Some(&self.entries[i].1),
            None => None,
        }
    }

    /// The integer stored under `name`, where it lies in `lo..=hi`.
    fn read_int(&self, name: &str, signed: bool, lo: i128, hi: i128) -> (r: Option<i128>)
        requires
            -0x1_0000_0000_0000_0000 <= lo <= 0,
            0 <= hi <= 0x1_0000_0000_0000_0000,
        ensures
            r is Some == read_integer(self@, name@, signed, lo as int, hi as int) is Some,
            r matches Some(v) ==> read_integer(self@, name@, signed, lo as int, hi as int) == Some(
                v as int,
            ),
    {
        match self.get(name) {
            Some(t) => parse_integer(t.as_str(), signed, lo, hi),
            None => None,
        }
    }

    /// The `isize` stored under `name`; `None` where it is missing or does not parse.
    pub fn to_int(&self, name: &str) -> (r: Option<isize>)
        ensures
            r is Some == read_integer(self@, name@, true, isize::MIN as int, isize::MAX as int) is Some,
            r matches Some(v) ==> read_integer(self@, name@, true, isize::MIN as int, isize::MAX as int)
                == Some(v as int),
    {
        match self.read_int(name, true, isize::MIN as i128, isize::MAX as i128) {
            Some(v) => Some(v as isize),
            None => None,
        }
    }

    /// The `i8` stored under `name`; `None` where it is missing or does not parse.
    pub fn to_i8(&self, name: &str) -> (r: Option<i8>)
        ensures
            r is Some == read_integer(self@, name@, true, i8::MIN as int, i8::MAX as int) is Some,
            r matches Some(v) ==> read_integer(self@, name@, true, i8::MIN as int, i8::MAX as int)
                == Some(v as int),
    {
        match self.read_int(name, true, i8::MIN as i128, i8::MAX as i128) {
            Some(v) => Some(v as i8),
            None => None,
        }
    }

    /// The `i16` stored under `name`; `None` where it is missing or does not parse.
    pub fn to_i16(&self, name: &str) -> (r: Option<i16>)
        ensures
            r is Some == read_integer(self@, name@, true, i16::MIN as int, i16::MAX as int) is Some,
            r matches Some(v) ==> read_integer(self@, name@, true, i16::MIN as int, i16::MAX as int)
                == Some(v as int),
    {
        match self.read_int(name, true, i16::MIN as i128, i16::MAX as i128) {
            Some(v) => Some(v as i16),
            None => None,
        }
    }

    /// The `i32` stored under `name`; `None` where it is missing or does not parse.
    pub fn to_i32(&self, name: &str) -> (r: Option<i32>)
        ensures
            r is Some == read_integer(self@, name@, true, i32::MIN as int, i32::MAX as int) is Some,
            r matches Some(v) ==> read_integer(self@, name@, true, i32::MIN as int, i32::MAX as int)
                == Some(v as int),
    {
        match self.read_int(name, true, i32::MIN as i128, i32::MAX as i128) {
            Some(v) => Some(v as i32),
            None => None,
        }
    }

    /// The `i64` stored under `name`; `None` where it is missing or does not parse.
    pub fn to_i64(&self, name: &str) -> (r: Option<i64>)
        ensures
            r is Some == read_integer(self@, name@, true, i64::MIN as int, i64::MAX as int) is Some,
            r matches Some(v) ==> read_integer(self@, name@, true, i64::MIN as int, i64::MAX as int)
                == Some(v as int),
    {
        match self.read_int(name, true, i64::MIN as i128, i64::MAX as i128) {
            Some(v) => Some(v as i64),
            None => None,
        }
    }

    /// The `usize` stored under `name`; `None` where it is missing or does not parse.
    pub fn to_uint(&self, name: &str) -> (r: Option<usize>)
        ensures
            r is Some == read_integer(self@, name@, false, usize::MIN as int, usize::MAX as int) is Some,
            r matches Some(v) ==> read_integer(self@, name@, false, usize::MIN as int, usize::MAX as int)
                == Some(v as int),
    {
        match self.read_int(name, false, usize::MIN as i128, usize::MAX as i128) {
            Some(v) => Some(v as usize),
            None => None,
        }
    }

    /// The `u8` stored under `name`; `None` where it is missing or does not parse.
    pub fn to_u8(&self, name: &str) -> (r: Option<u8>)
        ensures
            r is Some == read_integer(self@, name@, false, u8::MIN as int, u8::MAX as int) is Some,
            r matches Some(v) ==> read_integer(self@, name@, false, u8::MIN as int, u8::MAX as int)
                == Some(v as int),
    {
        match self.read_int(name, false, u8::MIN as i128, u8::MAX as i128) {
            Some(v) => Some(v as u8),
            None => None,
        }
    }

    /// The `u16` stored under `name`; `None` where it is missing or does not parse.
    pub fn to_u16(&self, name: &str) -> (r: Option<u16>)
        ensures
            r is Some == read_integer(self@, name@, false, u16::MIN as int, u16::MAX as int) is Some,
            r matches Some(v) ==> read_integer(self@, name@, false, u16::MIN as int, u16::MAX as int)
                == Some(v as int),
    {
        match self.read_int(name, false, u16::MIN as i128, u16::MAX as i128) {
            Some(v) => Some(v as u16),
            None => None,
        }
    }

    /// The `u32` stored under `name`; `None` where it is missing or does not parse.
    pub fn to_u32(&self, name: &str) -> (r: Option<u32>)
        ensures
            r is Some == read_integer(self@, name@, false, u32::MIN as int, u32::MAX as int) is Some,
            r matches Some(v) ==> read_integer(self@, name@, false, u32::MIN as int, u32::MAX as int)
                == Some(v as int),
    {
        match self.read_int(name, false, u32::MIN as i128, u32::MAX as i128) {
            Some(v) => Some(v as u32),
            None => None,
        }
    }

    /// The `u64` stored under `name`; `None` where it is missing or does not parse.
    pub fn to_u64(&self, name: &str) -> (r: Option<u64>)
        ensures
            r is Some == read_integer(self@, name@, false, u64::MIN as int, u64::MAX as int) is Some,
            r matches Some(v) ==> read_integer(self@, name@, false, u64::MIN as int, u64::MAX as int)
                == Some(v as int),
    {
        match self.read_int(name, false, u64::MIN as i128, u64::MAX as i128) {
            Some(v) => Some(v as u64),
            None => None,
        }
    }

    /// The boolean stored under `name`; `None` where it is missing or is
    /// neither "true" nor "false".
    pub fn to_bool(&self, name: &str) -> (r: Option<bool>)
        ensures
            r == read_bool(self@, name@),
    {
        let t = match self.get(name) {
            Some(t) => t,
            None => return None,
        };
        let yes = "true".to_owned();
        let no = "false".to_owned();
        proof {
            reveal_strlit("true");
            reveal_strlit("false");
        }
        assert(yes@ =~= seq!['t', 'r', 'u', 'e']);
        assert(no@ =~= seq!['f', 'a', 'l', 's', 'e']);
        if *t == yes {
            Some(true)
        } else if *t == no {
            Some(false)
        } else {
            None
        }
    }

    /// The text stored under `name`.
    pub fn to_string(&self, name: &str) -> (r: Option<String>)
        ensures
            r matches Some(v) ==> lookup(self@, name@) == Some(v@),
            r is None ==> lookup(self@, name@) is None,
    {
        match self.get(name) {
            Some(t) => Some(t.clone()),
            None => None,
        }
    }

    /// Every pair of `other` stored over this map: `other` wins where both
    /// hold a name.
    pub fn overlay(&mut self, other: &Params)
        ensures
            final(self)@ == old(self)@.union_prefer_right(other@),
    {
        proof {
            use_type_invariant(other);
        }
        let ghost start = self@;
        let mut i: usize = 0;
        while i < other.entries.len()
            invariant
                entries_hold(other.entries@, other.map@),
                i <= other.entries@.len(),
                self@ == start.union_prefer_right(
                    pairs_map(pairs_view(other.entries@.subrange(0, i as int))),
                ),
            decreases other.entries.len() - i,
        {
            let ghost done = pairs_view(other.entries@.subrange(0, i as int));
            let ghost next = (other.entries@[i as int].0@, other.entries@[i as int].1@);
            assert(pairs_view(other.entries@.subrange(0, i + 1)) =~= done.push(next));
            assert(done.push(next).drop_last() =~= done);
            self.insert(other.entries[i].0.clone(), other.entries[i].1.clone());
            assert(self@ =~= start.union_prefer_right(
                pairs_map(pairs_view(other.entries@.subrange(0, i + 1))),
            ));
            i = i + 1;
        }
        proof {
            lemma_entries_pairs_map(other.entries@, other.map@);
            assert(other.entries@.subrange(0, other.entries@.len() as int) =~= other.entries@);
        }
    }

    /// The map that inserting `pairs` one after the other gives.
    pub fn from_pairs(pairs: &Vec<(String, String)>) -> (r: Params)
        ensures
            r@ == pairs_map(pairs_view(pairs@)),
    {
        let mut p = Params::new();
        let mut i: usize = 0;
        while i < pairs.len()
            invariant
                i <= pairs@.len(),
                p@ == pairs_map(pairs_view(pairs@.subrange(0, i as int))),
            decreases pairs.len() - i,
        {
            let ghost done = pairs_view(pairs@.subrange(0, i as int));
            let ghost next = (pairs@[i as int].0@, pairs@[i as int].1@);
            assert(pairs_view(pairs@.subrange(0, i + 1)) =~= done.push(next));
            assert(done.push(next).drop_last() =~= done);
            p.insert(pairs[i].0.clone(), pairs[i].1.clone());
            i = i + 1;
        }
        assert(pairs@.subrange(0, pairs@.len() as int) =~= pairs@);
        p
    }

}

} // verus!
