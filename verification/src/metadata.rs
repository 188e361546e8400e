use vstd::prelude::*;
use vstd::utf8::{encode_utf8, encode_utf8_decode_utf8};

verus! {

/// Lexicographic order on byte strings: a proper prefix comes first,
/// otherwise the first differing byte decides.
pub open spec fn bytes_lt(a: Seq<u8>, b: Seq<u8>) -> bool
    decreases a.len(),
{
    if a.len() == 0 {
        b.len() > 0
    } else if b.len() == 0 {
        false
    } else if a[0] != b[0] {
        a[0] < b[0]
    } else {
        bytes_lt(a.drop_first(), b.drop_first())
    }
}

/// The order of metadata keys: that of their UTF-8 encodings, which is the
/// order in which `String`s compare.
pub open spec fn key_lt(a: Seq<char>, b: Seq<char>) -> bool {
    bytes_lt(encode_utf8(a), encode_utf8(b))
}

pub proof fn lemma_bytes_lt_irreflexive(a: Seq<u8>)
    ensures
        !bytes_lt(a, a),
    decreases a.len(),
{
    if a.len() > 0 {
        lemma_bytes_lt_irreflexive(a.drop_first());
    }
}

pub proof fn lemma_bytes_lt_asymmetric(a: Seq<u8>, b: Seq<u8>)
    ensures
        bytes_lt(a, b) ==> !bytes_lt(b, a),
    decreases a.len(),
{
    if a.len() > 0 && b.len() > 0 && a[0] == b[0] {
        lemma_bytes_lt_asymmetric(a.drop_first(), b.drop_first());
    }
}

pub proof fn lemma_bytes_lt_transitive(a: Seq<u8>, b: Seq<u8>, c: Seq<u8>)
    ensures
        bytes_lt(a, b) && bytes_lt(b, c) ==> bytes_lt(a, c),
    decreases a.len(),
{
    if a.len() > 0 && b.len() > 0 && c.len() > 0 {
        lemma_bytes_lt_transitive(a.drop_first(), b.drop_first(), c.drop_first());
    }
}

pub proof fn lemma_bytes_lt_total(a: Seq<u8>, b: Seq<u8>)
    ensures
        a != b ==> bytes_lt(a, b) || bytes_lt(b, a),
    decreases a.len(),
{
    if a.len() > 0 && b.len() > 0 && a[0] == b[0] {
        lemma_bytes_lt_total(a.drop_first(), b.drop_first());
        if a.drop_first() == b.drop_first() {
            assert(a =~= seq![a[0]] + a.drop_first());
            assert(b =~= seq![b[0]] + b.drop_first());
        }
    } else if a.len() == 0 && b.len() == 0 {
        assert(a =~= b);
    }
}

/// The direction of the order: after a common prefix, the string whose
/// next byte is smaller comes first, and a proper prefix comes before the
/// strings that extend it.
pub proof fn lemma_bytes_lt_direction(p: Seq<u8>, x: u8, y: u8, a: Seq<u8>, b: Seq<u8>)
    ensures
        x < y ==> bytes_lt(p.push(x) + a, p.push(y) + b),
        b.len() > 0 ==> bytes_lt(p, p + b),
    decreases p.len(),
{
    if p.len() > 0 {
        lemma_bytes_lt_direction(p.drop_first(), x, y, a, b);
        assert((p.push(x) + a).drop_first() =~= p.drop_first().push(x) + a);
        assert((p.push(y) + b).drop_first() =~= p.drop_first().push(y) + b);
        assert((p + b).drop_first() =~= p.drop_first() + b);
    } else {
        assert((p.push(x) + a)[0] == x);
        assert((p.push(y) + b)[0] == y);
        assert(p + b =~= b);
    }
}

/// Distinct character strings have distinct UTF-8 encodings.
pub proof fn lemma_encode_injective(a: Seq<char>, b: Seq<char>)
    ensures
        encode_utf8(a) == encode_utf8(b) ==> a == b,
{
    encode_utf8_decode_utf8(a);
    encode_utf8_decode_utf8(b);
}

pub proof fn lemma_key_order(a: Seq<char>, b: Seq<char>, c: Seq<char>)
    ensures
        !key_lt(a, a),
        key_lt(a, b) ==> !key_lt(b, a),
        key_lt(a, b) && key_lt(b, c) ==> key_lt(a, c),
        a != b ==> key_lt(a, b) || key_lt(b, a),
{
    lemma_bytes_lt_irreflexive(encode_utf8(a));
    lemma_bytes_lt_asymmetric(encode_utf8(a), encode_utf8(b));
    lemma_bytes_lt_transitive(encode_utf8(a), encode_utf8(b), encode_utf8(c));
    lemma_bytes_lt_total(encode_utf8(a), encode_utf8(b));
    lemma_encode_injective(a, b);
}

/// The outcome of comparing two keys.
pub enum KeyOrder {
    Less,
    Equal,
    Greater,
}

/// Compares two byte strings lexicographically.
pub fn compare_bytes(a: &[u8], b: &[u8]) -> (r: KeyOrder)
    ensures
        r is Less <==> bytes_lt(a@, b@),
        r is Equal <==> a@ == b@,
        r is Greater <==> bytes_lt(b@, a@),
{
    let mut i: usize = 0;
    assert(a@.skip(0) =~= a@);
    assert(b@.skip(0) =~= b@);
    while i < a.len() && i < b.len()
        invariant
            i <= a@.len(),
            i <= b@.len(),
            a@.subrange(0, i as int) == b@.subrange(0, i as int),
            bytes_lt(a@, b@) == bytes_lt(a@.skip(i as int), b@.skip(i as int)),
            bytes_lt(b@, a@) == bytes_lt(b@.skip(i as int), a@.skip(i as int)),
        decreases a@.len() - i,
    {
        if a[i] != b[i] {
            proof {
                lemma_bytes_lt_asymmetric(a@, b@);
                lemma_bytes_lt_total(a@, b@);
                if a@ == b@ {
                    assert(a@[i as int] == b@[i as int]);
                }
            }
            if a[i] < b[i] {
                return KeyOrder::Less;
            } else {
                return KeyOrder::Greater;
            }
        }
        proof {
            assert(a@.skip(i as int).drop_first() =~= a@.skip(i + 1));
            assert(b@.skip(i as int).drop_first() =~= b@.skip(i + 1));
            assert(a@.subrange(0, i + 1) =~= a@.subrange(0, i as int).push(a@[i as int]));
            assert(b@.subrange(0, i + 1) =~= b@.subrange(0, i as int).push(b@[i as int]));
        }
        i = i + 1;
    }
    proof {
        lemma_bytes_lt_asymmetric(a@, b@);
        lemma_bytes_lt_total(a@, b@);
        if i == a@.len() && i == b@.len() {
            assert(a@ =~= a@.subrange(0, i as int));
            assert(b@ =~= b@.subrange(0, i as int));
        }
        if a@ == b@ {
            lemma_bytes_lt_irreflexive(a@);
        }
    }
    if a.len() < b.len() {
        KeyOrder::Less
    } else if a.len() == b.len() {
        proof {
            assert(a@ =~= a@.subrange(0, i as int));
            assert(b@ =~= b@.subrange(0, i as int));
        }
        KeyOrder::Equal
    } else {
        KeyOrder::Greater
    }
}

/// Compares two strings in the order in which `String`s compare.
pub fn compare_keys(a: &str, b: &str) -> (r: KeyOrder)
    ensures
        r is Less <==> key_lt(a@, b@),
        r is Equal <==> a@ == b@,
        r is Greater <==> key_lt(b@, a@),
{
    proof {
        lemma_encode_injective(a@, b@);
    }
    compare_bytes(a.as_bytes(), b.as_bytes())
}

/// Keys strictly increase along the sequence (so no key occurs twice).
pub open spec fn keys_sorted(s: Seq<(Seq<char>, Seq<char>)>) -> bool {
    forall|i: int, j: int| 0 <= i < j < s.len() ==> key_lt(#[trigger] s[i].0, #[trigger] s[j].0)
}

/// The entry list after `key` is set to `value`: an entry with that key is
/// replaced, otherwise the new entry goes before the first greater key.
pub open spec fn metadata_insert(
    s: Seq<(Seq<char>, Seq<char>)>,
    key: Seq<char>,
    value: Seq<char>,
) -> Seq<(Seq<char>, Seq<char>)>
    decreases s.len(),
{
    if s.len() == 0 {
        seq![(key, value)]
    } else if s[0].0 == key {
        seq![(key, value)] + s.drop_first()
    } else if key_lt(key, s[0].0) {
        seq![(key, value)] + s
    } else {
        seq![s[0]] + metadata_insert(s.drop_first(), key, value)
    }
}

/// The value stored under `key`, if any.
pub open spec fn metadata_get(s: Seq<(Seq<char>, Seq<char>)>, key: Seq<char>) -> Option<Seq<char>>
    decreases s.len(),
{
    if s.len() == 0 {
        None
    } else if s[0].0 == key {
        Some(s[0].1)
    } else {
        metadata_get(s.drop_first(), key)
    }
}

/// Inserting at the position that a scan finds gives `metadata_insert`.
proof fn lemma_insert_at_position(
    s: Seq<(Seq<char>, Seq<char>)>,
    key: Seq<char>,
    value: Seq<char>,
    p: int,
)
    requires
        0 <= p <= s.len(),
        forall|j: int| 0 <= j < p ==> key_lt(#[trigger] s[j].0, key),
        p < s.len() ==> !key_lt(s[p].0, key),
    ensures
        p < s.len() && s[p].0 == key ==> metadata_insert(s, key, value) == s.update(p, (key, value)),
        !(p < s.len() && s[p].0 == key) ==> metadata_insert(s, key, value) == s.insert(p, (key, value)),
    decreases p,
{
    if s.len() > 0 {
        lemma_key_order(s[0].0, key, key);
        lemma_key_order(key, s[0].0, key);
    }
    if p == 0 {
        if s.len() > 0 && s[0].0 != key {
            assert(key_lt(key, s[0].0));
        }
        if s.len() > 0 && s[0].0 == key {
            assert(seq![(key, value)] + s.drop_first() =~= s.update(0, (key, value)));
        } else {
            assert(seq![(key, value)] + s =~= s.insert(0, (key, value)));
        }
    } else {
        let rest = s.drop_first();
        assert forall|j: int| 0 <= j < p - 1 implies key_lt(#[trigger] rest[j].0, key) by {
            assert(rest[j] == s[j + 1]);
        }
        lemma_insert_at_position(rest, key, value, p - 1);
        assert(key_lt(s[0].0, key));
        if p < s.len() && s[p].0 == key {
            assert(seq![s[0]] + rest.update(p - 1, (key, value)) =~= s.update(p, (key, value)));
        } else {
            assert(seq![s[0]] + rest.insert(p - 1, (key, value)) =~= s.insert(p, (key, value)));
        }
    }
}

/// Reading a key back gives what was last written under it, and writing one
/// key leaves every other key as it was.
pub proof fn lemma_metadata_read_after_write(
    s: Seq<(Seq<char>, Seq<char>)>,
    key: Seq<char>,
    value: Seq<char>,
    other: Seq<char>,
)
    ensures
        metadata_get(metadata_insert(s, key, value), key) == Some(value),
        other != key ==> metadata_get(metadata_insert(s, key, value), other) == metadata_get(s, other),
    decreases s.len(),
{
    if s.len() == 0 {
        assert(seq![(key, value)].drop_first() =~= s);
    } else if s[0].0 == key {
        assert((seq![(key, value)] + s.drop_first()).drop_first() =~= s.drop_first());
    } else if key_lt(key, s[0].0) {
        assert((seq![(key, value)] + s).drop_first() =~= s);
    } else {
        lemma_metadata_read_after_write(s.drop_first(), key, value, other);
        assert((seq![s[0]] + metadata_insert(s.drop_first(), key, value)).drop_first()
            =~= metadata_insert(s.drop_first(), key, value));
    }
}

/// The key/value pairs attached to an embedding, ordered by key as a
/// `BTreeMap<String, String>` orders them; no key occurs twice.
#[derive(Debug)]
pub struct Metadata {
    entries: Vec<(String, String)>,
}

/// The characters of each key and value, in order.
pub open spec fn pairs_view(s: Seq<(String, String)>) -> Seq<(Seq<char>, Seq<char>)> {
    s.map_values(|p: (String, String)| (p.0@, p.1@))
}

impl View for Metadata {
    type V = Seq<(Seq<char>, Seq<char>)>;

    closed spec fn view(&self) -> Seq<(Seq<char>, Seq<char>)> {
        pairs_view(self.entries@)
    }
}

impl Clone for Metadata {
    /// A copy with the same pairs in the same order.
    fn clone(&self) -> (m: Self)
        ensures
            m@ == self@,
    {
        proof {
            use_type_invariant(self);
        }
        let mut entries: Vec<(String, String)> = Vec::new();
        let mut i: usize = 0;
        while i < self.entries.len()
            invariant
                i <= self.entries@.len(),
                entries@.len() == i,
                pairs_view(entries@) == pairs_view(self.entries@).take(i as int),
            decreases self.entries@.len() - i,
        {
            let (k, v) = &self.entries[i];
            entries.push((k.clone(), v.clone()));
            assert(pairs_view(entries@) =~= pairs_view(self.entries@).take(i + 1));
            i = i + 1;
        }
        assert(pairs_view(self.entries@).take(i as int) =~= pairs_view(self.entries@));
        Metadata { entries }
    }
}

impl Metadata {
    /// Keys strictly increase in every metadata value.
    #[verifier::type_invariant]
    pub open spec fn sorted(self) -> bool {
        keys_sorted(self@)
    }

    /// Empty metadata.
    pub fn new() -> (m: Self)
        ensures
            m@ == Seq::<(Seq<char>, Seq<char>)>::empty(),
    {
        let m = Metadata { entries: Vec::new() };
        assert(m@ =~= Seq::<(Seq<char>, Seq<char>)>::empty());
        m
    }

    /// The number of keys.
    pub fn len(&self) -> (n: usize)
        ensures
            n == self@.len(),
    {
        self.entries.len()
    }

    /// The entries in increasing key order.
    pub fn entries(&self) -> (s: &[(String, String)])
        ensures
            pairs_view(s@) == self@,
    {
        self.entries.as_slice()
    }

    /// Sets `key` to `value`, replacing the value it had.
    pub fn insert(&mut self, key: String, value: String)
        ensures
            final(self)@ == metadata_insert(old(self)@, key@, value@),
    {
        proof {
            use_type_invariant(&*self);
        }
        let ghost s = self@;
        let mut entries: Vec<(String, String)> = Vec::new();
        std::mem::swap(&mut entries, &mut self.entries);
        assert(pairs_view(entries@) == s);
        let mut i: usize = 0;
        let mut stop = false;
        while i < entries.len() && !stop
            invariant
                i <= entries@.len(),
                s == pairs_view(entries@),
                keys_sorted(s),
                forall|j: int| 0 <= j < i ==> key_lt(#[trigger] s[j].0, key@),
                stop ==> i < s.len() && !key_lt(s[i as int].0, key@),
            decreases entries@.len() - i + (if stop { 0int } else { 1int }),
        {
            assert(s[i as int] == (entries@[i as int].0@, entries@[i as int].1@));
            let order = compare_keys(entries[i].0.as_str(), key.as_str());
            match order {
                KeyOrder::Less => {
                    i = i + 1;
                },
                _ => {
                    stop = true;
                },
            }
        }
        proof {
            if i < s.len() {
                assert(s[i as int] == (entries@[i as int].0@, entries@[i as int].1@));
            }
            lemma_insert_at_position(s, key@, value@, i as int);
        }
        let ghost pair = (key@, value@);
        if i < entries.len() && matches!(compare_keys(entries[i].0.as_str(), key.as_str()), KeyOrder::Equal) {
            entries.set(i, (key, value));
            proof {
                let t = pairs_view(entries@);
                assert(t =~= s.update(i as int, pair));
                assert forall|a: int, b: int| 0 <= a < b < t.len() implies key_lt(
                    #[trigger] t[a].0,
                    #[trigger] t[b].0,
                ) by {
                    assert(t[a].0 == s[a].0);
                    assert(t[b].0 == s[b].0);
                }
            }
        } else {
            entries.insert(i, (key, value));
            proof {
                let t = pairs_view(entries@);
                assert(t =~= s.insert(i as int, pair));
                if i < s.len() {
                    lemma_key_order(s[i as int].0, pair.0, pair.0);
                    assert(key_lt(pair.0, s[i as int].0));
                }
                assert forall|a: int, b: int| 0 <= a < b < t.len() implies key_lt(
                    #[trigger] t[a].0,
                    #[trigger] t[b].0,
                ) by {
                    if b < i {
                    } else if b == i {
                    } else if a < i {
                        lemma_key_order(s[a].0, pair.0, s[b - 1].0);
                        if b - 1 > i {
                            lemma_key_order(pair.0, s[i as int].0, s[b - 1].0);
                        }
                    } else if a == i {
                        if b - 1 > i {
                            lemma_key_order(pair.0, s[i as int].0, s[b - 1].0);
                        }
                    } else {
                    }
                }
            }
        }
        self.entries = entries;
    }

    /// The value stored under `key`, if any.
    pub fn get(&self, key: &str) -> (r: Option<&String>)
        ensures
            match r {
                Some(v) => metadata_get(self@, key@) == Some(v@),
                None => metadata_get(self@, key@) is None,
            },
    {
        let ghost s = self@;
        let mut i: usize = 0;
        assert(s.skip(0) =~= s);
        while i < self.entries.len()
            invariant
                i <= self.entries@.len(),
                s == pairs_view(self.entries@),
                metadata_get(s, key@) == metadata_get(s.skip(i as int), key@),
            decreases self.entries@.len() - i,
        {
            let ghost rest = s.skip(i as int);
            assert(rest[0] == s[i as int]);
            if matches!(compare_keys(self.entries[i].0.as_str(), key), KeyOrder::Equal) {
                return Some(&self.entries[i].1);
            }
            assert(rest.drop_first() =~= s.skip(i + 1));
            i = i + 1;
        }
        None
    }
}

} // verus!
