//! Processors that keep what they process: one whose buffers and strings only
//! grow until cleaned up, and one that caches a doubled copy of each input.
use vstd::prelude::*;
use std::collections::HashMap;
use std::rc::Rc;
use crate::str_map::StrMap;

verus! {

/// The char of the decimal digit `d`.
pub open spec fn digit_char(d: int) -> char {
    (d + '0' as int) as char
}

/// The decimal digits of `n`, without leading zeros.
pub open spec fn decimal(n: nat) -> Seq<char>
    decreases n,
{
    if n < 10 {
        seq![digit_char(n as int)]
    } else {
        decimal(n / 10).push(digit_char((n % 10) as int))
    }
}

/// A number has at least one digit, and more than one exactly from 10 on.
proof fn lemma_decimal_len(n: nat)
    ensures
        decimal(n).len() >= 1,
        (n < 10) == (decimal(n).len() == 1),
    decreases n,
{
    if n >= 10 {
        lemma_decimal_len(n / 10);
    }
}

/// Different numbers are written differently.
pub proof fn lemma_decimal_injective(a: nat, b: nat)
    requires
        decimal(a) == decimal(b),
    ensures
        a == b,
    decreases a,
{
    lemma_decimal_len(a);
    lemma_decimal_len(b);
    if a < 10 && b < 10 {
        assert(decimal(a)[0] == digit_char(a as int));
        assert(decimal(b)[0] == digit_char(b as int));
        assert((digit_char(a as int) as int) == a + '0' as int);
        assert((digit_char(b as int) as int) == b + '0' as int);
    } else if a >= 10 && b >= 10 {
        let la = decimal(a).len() - 1;
        assert(decimal(a)[la] == digit_char((a % 10) as int));
        assert(decimal(b)[la] == digit_char((b % 10) as int));
        assert((digit_char((a % 10) as int) as int) == a % 10 + '0' as int);
        assert((digit_char((b % 10) as int) as int) == b % 10 + '0' as int);
        assert(decimal(a / 10) =~= decimal(a).drop_last());
        assert(decimal(b / 10) =~= decimal(b).drop_last());
        lemma_decimal_injective(a / 10, b / 10);
    }
}

/// Different items are processed under different keys.
pub proof fn lemma_key_of_injective(a: nat, b: nat)
    requires
        key_of(a) == key_of(b),
    ensures
        a == b,
{
    let p = "key_"@;
    assert(decimal(a) =~= key_of(a).subrange(p.len() as int, key_of(a).len() as int));
    assert(decimal(b) =~= key_of(b).subrange(p.len() as int, key_of(b).len() as int));
    lemma_decimal_injective(a, b);
}

/// `n` written in decimal, as `format!("{}", n)` writes it.
pub fn decimal_string(n: usize) -> (s: String)
    ensures
        s@ == decimal(n as nat),
    decreases n,
{
    let digits = "0123456789";
    proof {
        reveal_strlit("0123456789");
    }
    let d = n % 10;
    let digit = digits.substring_char(d, d + 1);
    assert(digit@ =~= seq![digit_char(d as int)]);
    if n < 10 {
        digit.to_owned()
    } else {
        let mut s = decimal_string(n / 10);
        s.append(digit);
        assert(s@ =~= decimal(n as nat));
        s
    }
}

/// `prefix` followed by the decimal digits of `n`.
pub fn numbered(prefix: &str, n: usize) -> (s: String)
    ensures
        s@ == prefix@ + decimal(n as nat),
{
    let mut s = prefix.to_owned();
    let digits = decimal_string(n);
    s.append(digits.as_str());
    s
}

/// Calls `Rc::clone`: another pointer to the same value.
#[verifier::external_body]
fn share<T>(rc: &Rc<T>) -> (r: Rc<T>)
    ensures
        r == *rc,
{
    Rc::clone(rc)
}

/// Viewing the cached values keeps the cache's keys and size.
proof fn lemma_map_values_len(m: Map<Seq<char>, Rc<Vec<u8>>>)
    ensures
        m.map_values(|v: Rc<Vec<u8>>| v@).dom() == m.dom(),
        m.map_values(|v: Rc<Vec<u8>>| v@).len() == m.len(),
{
    assert(m.map_values(|v: Rc<Vec<u8>>| v@).dom() =~= m.dom());
}

/// The bytes of `data` twice over.
pub open spec fn doubled_data(data: Seq<u8>) -> Seq<u8> {
    data + data
}

/// The strings that processing under `key` leaves behind: `temp_string_<key>_<i>`
/// for `i` from 0 to 99.
pub open spec fn leftover_strings(key: Seq<char>) -> Seq<Seq<char>> {
    Seq::new(100, |i: int| "temp_string_"@ + key + "_"@ + decimal(i as nat))
}

/// The sample input: 1000 bytes counting up from 0 and wrapping at 256.
pub open spec fn sample_bytes() -> Seq<u8> {
    Seq::new(1000, |x: int| (x % 256) as u8)
}

/// The sample input.
pub fn sample_data() -> (data: Vec<u8>)
    ensures
        data@ == sample_bytes(),
{
    let mut data: Vec<u8> = Vec::new();
    let mut x: usize = 0;
    while x < 1000
        invariant
            x <= 1000,
            data@ == sample_bytes().take(x as int),
        decreases 1000 - x,
    {
        data.push((x % 256) as u8);
        assert(data@ =~= sample_bytes().take(x + 1));
        x += 1;
    }
    assert(data@ =~= sample_bytes());
    data
}

/// What a leaky processor holds. `cache_order` lists the cached keys from
/// the least to the most recently stored.
pub struct LeakyModel {
    pub cache: Map<Seq<char>, Seq<u8>>,
    pub cache_order: Seq<Seq<char>>,
    pub temp_buffers: Seq<Seq<u8>>,
    pub leaked_strings: Seq<Seq<char>>,
}

/// The test for a key other than `key`.
pub open spec fn is_not(key: Seq<char>) -> spec_fn(Seq<char>) -> bool {
    |k: Seq<char>| k != key
}

/// The key order after `key` is stored: taken out wherever it stood, and put last.
pub open spec fn touch(order: Seq<Seq<char>>, key: Seq<char>) -> Seq<Seq<char>> {
    order.filter(is_not(key)).push(key)
}

/// The key under which item `i` is processed: `key_<i>`.
pub open spec fn key_of(i: nat) -> Seq<char> {
    "key_"@ + decimal(i)
}

/// What a processor holds after processing items `0` to `n - 1` in turn, each
/// the sample input under its key.
pub open spec fn after_items(m: LeakyModel, n: nat) -> LeakyModel
    decreases n,
{
    if n == 0 {
        m
    } else {
        let p = after_items(m, (n - 1) as nat);
        let k = key_of((n - 1) as nat);
        LeakyModel {
            cache: p.cache.insert(k, doubled_data(sample_bytes())),
            cache_order: touch(p.cache_order, k),
            temp_buffers: p.temp_buffers.push(doubled_data(sample_bytes())),
            leaked_strings: p.leaked_strings + leftover_strings(k),
        }
    }
}

/// How many cache entries a cleanup keeps out of `n`: all of them, up to 100.
pub open spec fn kept(n: nat) -> nat {
    if n > 100 {
        100
    } else {
        n
    }
}

/// Filtering a key out of a list of distinct keys removes its one position,
/// or changes nothing when it is absent.
proof fn lemma_filter_out(s: Seq<Seq<char>>, key: Seq<char>)
    requires
        s.no_duplicates(),
    ensures
        !s.contains(key) ==> s.filter(is_not(key)) == s,
        forall|i: int|
            0 <= i < s.len() && #[trigger] s[i] == key ==> s.filter(is_not(key)) == s.remove(i),
    decreases s.len(),
{
    reveal(Seq::filter);
    if s.len() > 0 {
        let t = s.drop_last();
        assert(t.no_duplicates());
        lemma_filter_out(t, key);
        let x = s.last();
        if !s.contains(key) {
            assert(!t.contains(key)) by {
                if t.contains(key) {
                    let j = choose|j: int| 0 <= j < t.len() && t[j] == key;
                    assert(s[j] == key);
                }
            }
            assert(x != key);
            assert(s.filter(is_not(key)) == t.filter(is_not(key)).push(x));
            assert(s =~= t.push(x));
        }
        assert forall|i: int| 0 <= i < s.len() && #[trigger] s[i] == key implies s.filter(
            is_not(key),
        ) == s.remove(i) by {
            if i == s.len() - 1 {
                assert(!t.contains(key)) by {
                    if t.contains(key) {
                        let j = choose|j: int| 0 <= j < t.len() && t[j] == key;
                        assert(s[j] == key);
                    }
                }
                assert(s.remove(i) =~= t);
            } else {
                assert(x != key);
                assert(t[i] == key);
                assert(s.filter(is_not(key)) == t.filter(is_not(key)).push(x));
                assert(s.remove(i) =~= t.remove(i).push(x));
            }
        }
    }
}

/// A processor that keeps every result, buffer and string it makes.
pub struct LeakyProcessor {
    cache: StrMap<Rc<Vec<u8>>>,
    temp_buffers: Vec<Vec<u8>>,
    leaked_strings: Vec<String>,
}

impl View for LeakyProcessor {
    type V = LeakyModel;

    closed spec fn view(&self) -> LeakyModel {
        LeakyModel {
            cache: self.cache@.map_values(|v: Rc<Vec<u8>>| v@),
            cache_order: self.cache.keys(),
            temp_buffers: self.temp_buffers@.map_values(|b: Vec<u8>| b@),
            leaked_strings: self.leaked_strings@.map_values(|s: String| s@),
        }
    }
}

impl LeakyProcessor {
    /// The cache is a well-formed map.
    pub closed spec fn wf(&self) -> bool {
        self.cache.wf()
    }

    /// A processor that holds nothing.
    pub fn new() -> (p: LeakyProcessor)
        ensures
            p.wf(),
            p@.cache == Map::<Seq<char>, Seq<u8>>::empty(),
            p@.cache_order == Seq::<Seq<char>>::empty(),
            p@.temp_buffers == Seq::<Seq<u8>>::empty(),
            p@.leaked_strings == Seq::<Seq<char>>::empty(),
    {
        let p = LeakyProcessor {
            cache: StrMap::new(),
            temp_buffers: Vec::new(),
            leaked_strings: Vec::new(),
        };
        assert(p@.cache =~= Map::<Seq<char>, Seq<u8>>::empty());
        assert(p@.temp_buffers =~= Seq::<Seq<u8>>::empty());
        assert(p@.leaked_strings =~= Seq::<Seq<char>>::empty());
        p
    }

    /// Doubles `data` (its bytes twice over), keeps a copy of the result among
    /// the buffers, leaves 100 strings behind, caches the result under `key`
    /// (which becomes the most recently stored key) and returns it.
    pub fn process_data(&mut self, key: &str, data: &[u8]) -> (r: Rc<Vec<u8>>)
        requires
            old(self).wf(),
        ensures
            final(self).wf(),
            r@ == doubled_data(data@),
            final(self)@.temp_buffers == old(self)@.temp_buffers.push(doubled_data(data@)),
            final(self)@.leaked_strings == old(self)@.leaked_strings + leftover_strings(key@),
            final(self)@.cache == old(self)@.cache.insert(key@, doubled_data(data@)),
            final(self)@.cache_order == touch(old(self)@.cache_order, key@),
    {
        let ghost old_p = self@;
        let mut temp: Vec<u8> = Vec::new();
        let mut k: usize = 0;
        while k < data.len()
            invariant
                k <= data@.len(),
                temp@ == data@.take(k as int),
            decreases data@.len() - k,
        {
            temp.push(data[k]);
            assert(temp@ =~= data@.take(k + 1));
            k += 1;
        }
        k = 0;
        while k < data.len()
            invariant
                k <= data@.len(),
                temp@ == data@ + data@.take(k as int),
            decreases data@.len() - k,
        {
            temp.push(data[k]);
            assert(temp@ =~= data@ + data@.take(k + 1));
            k += 1;
        }
        assert(temp@ =~= doubled_data(data@));
        self.temp_buffers.push(temp.clone());
        let mut i: usize = 0;
        while i < 100
            invariant
                i <= 100,
                self.leaked_strings@.map_values(|s: String| s@) == old_p.leaked_strings
                    + leftover_strings(key@).take(i as int),
                self.temp_buffers@.map_values(|b: Vec<u8>| b@) == old_p.temp_buffers.push(
                    doubled_data(data@),
                ),
                self.cache@ == old(self).cache@,
                self.cache.keys() == old_p.cache_order,
                self.cache.wf(),
            decreases 100 - i,
        {
            let mut label = "temp_string_".to_owned();
            label.append(key);
            label.append("_");
            label.append(decimal_string(i).as_str());
            assert(label@ == leftover_strings(key@)[i as int]);
            let ghost before = self.leaked_strings@;
            self.leaked_strings.push(label);
            assert(self.leaked_strings@.map_values(|s: String| s@) =~= before.map_values(
                |s: String| s@,
            ).push(label@));
            assert(self.leaked_strings@.map_values(|s: String| s@) =~= old_p.leaked_strings
                + leftover_strings(key@).take(i + 1));
            i += 1;
        }
        assert(leftover_strings(key@).take(100) =~= leftover_strings(key@));
        let result = Rc::new(temp);
        proof {
            self.cache.lemma_entries();
            lemma_filter_out(self.cache.keys(), key@);
        }
        self.cache.remove(key);
        proof {
            self.cache.lemma_entries();
            if old_p.cache_order.contains(key@) {
                let i = choose|i: int|
                    0 <= i < old_p.cache_order.len() && old_p.cache_order[i] == key@;
                assert(self.cache.keys() == old_p.cache_order.remove(i));
            }
            assert(self.cache.keys() == old_p.cache_order.filter(is_not(key@)));
        }
        self.cache.insert(key.to_owned(), share(&result));
        self.allocate_temporary_data();
        assert(self@.cache =~= old_p.cache.insert(key@, doubled_data(data@)));
        assert(self@.temp_buffers =~= old_p.temp_buffers.push(doubled_data(data@)));
        assert(self@.cache_order == touch(old_p.cache_order, key@));
        result
    }

    /// Builds and drops a map of the numbers below 1000 to their labels
    /// `value_<number>`; the processor is left as it was.
    pub fn allocate_temporary_data(&mut self)
        ensures
            *final(self) == *old(self),
    {
        broadcast use vstd::std_specs::hash::group_hash_axioms;

        let mut temp_map: HashMap<i32, String> = HashMap::new();
        let mut i: usize = 0;
        while i < 1000
            invariant
                i <= 1000,
            decreases 1000 - i,
        {
            temp_map.insert(i as i32, numbered("value_", i));
            i += 1;
        }
    }

    /// Empties the buffers and the strings, and keeps only the 100 most
    /// recently stored cache entries: the least recent ones go first.
    pub fn cleanup(&mut self)
        requires
            old(self).wf(),
        ensures
            final(self).wf(),
            final(self)@.temp_buffers == Seq::<Seq<u8>>::empty(),
            final(self)@.leaked_strings == Seq::<Seq<char>>::empty(),
            final(self)@.cache.submap_of(old(self)@.cache),
            final(self)@.cache.len() == kept(old(self)@.cache.len()),
            final(self)@.cache_order == old(self)@.cache_order.skip(
                old(self)@.cache_order.len() - kept(old(self)@.cache_order.len()),
            ),
    {
        let ghost old_cache = self.cache@;
        let ghost old_keys = self.cache.keys();
        proof {
            self.cache.lemma_entries();
            lemma_map_values_len(old_cache);
            assert(old_keys.skip(0) =~= old_keys);
        }
        self.temp_buffers.clear();
        self.leaked_strings.clear();
        while self.cache.len() > 100
            invariant
                self.cache.wf(),
                self.cache@.submap_of(old_cache),
                self.cache@.len() >= 100 || self.cache@ == old_cache,
                old_cache.len() <= 100 ==> self.cache@ == old_cache,
                old_keys.len() == old_cache.len(),
                self.cache.keys().len() <= old_keys.len(),
                self.cache.keys() == old_keys.skip(old_keys.len() - self.cache.keys().len()),
                self.temp_buffers@ == Seq::<Vec<u8>>::empty(),
                self.leaked_strings@ == Seq::<String>::empty(),
            decreases self.cache@.len(),
        {
            proof {
                self.cache.lemma_entries();
            }
            let key = self.cache.key_at(0).clone();
            let ghost before = self.cache@;
            let ghost before_keys = self.cache.keys();
            assert(before.contains_key(key@));
            self.cache.remove(key.as_str());
            proof {
                assert(self.cache@.dom() =~= before.dom().remove(key@));
                vstd::set::axiom_set_remove_len(before.dom(), key@);
                assert(before_keys[0] == key@);
                assert(self.cache.keys() == before_keys.remove(0));
                assert(self.cache.keys() =~= old_keys.skip(
                    old_keys.len() - self.cache.keys().len(),
                ));
            }
        }
        proof {
            self.cache.lemma_entries();
            lemma_map_values_len(self.cache@);
            lemma_map_values_len(old_cache);
            let now = self.cache@.map_values(|v: Rc<Vec<u8>>| v@);
            let before = old_cache.map_values(|v: Rc<Vec<u8>>| v@);
            assert forall|k: Seq<char>| #[trigger] now.contains_key(k) implies before.contains_key(k)
                && now[k] == before[k] by {
                assert(self.cache@.contains_key(k));
                assert(self.cache@.dom().subset_of(old_cache.dom()));
                assert(old_cache.contains_key(k));
                assert(self.cache@[k] == old_cache[k]);
            }
        }
        assert(self@.temp_buffers =~= Seq::<Seq<u8>>::empty());
        assert(self@.leaked_strings =~= Seq::<Seq<char>>::empty());
    }

    /// Processes item `i`: the bytes `0, 1, ..., 255, 0, 1, ...` (1000 of
    /// them) under the key `key_<i>`.
    pub fn process_item(&mut self, i: usize) -> (r: Rc<Vec<u8>>)
        requires
            old(self).wf(),
        ensures
            final(self).wf(),
            r@ == doubled_data(sample_bytes()),
            final(self)@.temp_buffers == old(self)@.temp_buffers.push(doubled_data(sample_bytes())),
            final(self)@.leaked_strings == old(self)@.leaked_strings + leftover_strings(
                "key_"@ + decimal(i as nat),
            ),
            final(self)@.cache == old(self)@.cache.insert(
                "key_"@ + decimal(i as nat),
                doubled_data(sample_bytes()),
            ),
            final(self)@.cache_order == touch(old(self)@.cache_order, "key_"@ + decimal(i as nat)),
    {
        let key = numbered("key_", i);
        let data = sample_data();
        self.process_data(key.as_str(), data.as_slice())
    }

    /// Processes items `0` to `count - 1` in turn.
    pub fn process_many(&mut self, count: usize)
        requires
            old(self).wf(),
        ensures
            final(self).wf(),
            final(self)@ == after_items(old(self)@, count as nat),
    {
        let ghost start = self@;
        let mut i: usize = 0;
        while i < count
            invariant
                i <= count,
                self.wf(),
                self@ == after_items(start, i as nat),
            decreases count - i,
        {
            self.process_item(i);
            i += 1;
        }
    }

    /// A result is cached under `key`.
    pub fn is_cached(&self, key: &str) -> (r: bool)
        requires
            self.wf(),
        ensures
            r == self@.cache.contains_key(key@),
    {
        proof {
            lemma_map_values_len(self.cache@);
        }
        self.cache.contains_key(key)
    }

    /// The number of cached entries, buffers and left-over strings.
    pub fn get_memory_stats(&self) -> (stats: (usize, usize, usize))
        requires
            self.wf(),
        ensures
            stats.0 == self@.cache.len(),
            stats.1 == self@.temp_buffers.len(),
            stats.2 == self@.leaked_strings.len(),
    {
        proof {
            lemma_map_values_len(self.cache@);
        }
        (self.cache.len(), self.temp_buffers.len(), self.leaked_strings.len())
    }
}

/// A well-formed leaky processor's key order lists each cached key exactly
/// once, and nothing else.
pub proof fn lemma_cache_order_lists_cache(p: &LeakyProcessor)
    requires
        p.wf(),
    ensures
        p@.cache_order.no_duplicates(),
        p@.cache_order.len() == p@.cache.len(),
        forall|k: Seq<char>| #[trigger] p@.cache.contains_key(k) <==> p@.cache_order.contains(k),
{
    p.cache.lemma_entries();
    lemma_map_values_len(p.cache@);
}

/// Each byte of `data` doubled, wrapping at 256.
pub open spec fn doubled_bytes(data: Seq<u8>) -> Seq<u8> {
    data.map_values(|b: u8| ((b as int * 2) % 256) as u8)
}

/// What a data processor holds.
pub struct DataModel {
    pub cache: Map<Seq<char>, Seq<u8>>,
    pub buffer: Seq<u8>,
}

/// A processor that doubles its input into a buffer and caches each result.
pub struct DataProcessor {
    cache: StrMap<Vec<u8>>,
    buffer: Vec<u8>,
}

impl View for DataProcessor {
    type V = DataModel;

    closed spec fn view(&self) -> DataModel {
        DataModel { cache: self.cache@.map_values(|v: Vec<u8>| v@), buffer: self.buffer@ }
    }
}

impl DataProcessor {
    /// The cache is a well-formed map.
    pub closed spec fn wf(&self) -> bool {
        self.cache.wf()
    }

    /// A processor with an empty cache and an empty buffer.
    pub fn new() -> (p: DataProcessor)
        ensures
            p.wf(),
            p@.cache == Map::<Seq<char>, Seq<u8>>::empty(),
            p@.buffer == Seq::<u8>::empty(),
    {
        let p = DataProcessor { cache: StrMap::new(), buffer: Vec::with_capacity(1024) };
        assert(p@.cache =~= Map::<Seq<char>, Seq<u8>>::empty());
        p
    }

    /// Replaces the buffer with `data`, each byte doubled (wrapping), caches a
    /// copy under `key`, and returns the buffer.
    pub fn process_data(&mut self, key: &str, data: &[u8]) -> (r: &[u8])
        requires
            old(self).wf(),
        ensures
            final(self).wf(),
            r@ == doubled_bytes(data@),
            final(self)@.buffer == doubled_bytes(data@),
            final(self)@.cache == old(self)@.cache.insert(key@, doubled_bytes(data@)),
    {
        let ghost old_cache = self@.cache;
        self.buffer.clear();
        let mut i: usize = 0;
        while i < data.len()
            invariant
                i <= data@.len(),
                self.buffer@ == doubled_bytes(data@).take(i as int),
                self.cache.wf(),
                self@.cache == old_cache,
            decreases data@.len() - i,
        {
            let b = data[i];
            self.buffer.push(b.wrapping_mul(2));
            assert(self.buffer@ =~= doubled_bytes(data@).take(i + 1));
            i += 1;
        }
        assert(self.buffer@ =~= doubled_bytes(data@));
        let copy = self.buffer.clone();
        assert(copy@ =~= self.buffer@);
        self.cache.insert(key.to_owned(), copy);
        assert(self@.cache =~= old_cache.insert(key@, doubled_bytes(data@)));
        self.buffer.as_slice()
    }
}

} // verus!
