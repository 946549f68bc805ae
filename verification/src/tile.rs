//! Tiles before and after compression, and the strategies that turn one
//! into the other.
use vstd::prelude::*;
use vstd::utf8::encode_utf8;

verus! {

broadcast use vstd::layout::layout_of_primitives;

/// Available compression strategies.
#[derive(Debug, Clone, Copy, PartialEq, Eq, Structural)]
pub enum CompressionStrategy {
    RunLength,
    Dictionary,
    Delta,
    Threshold,
    Semantic,
    Hybrid,
}

/// Number of bytes of the UTF-8 encoding of `s`.
pub open spec fn utf8_len(s: Seq<char>) -> nat {
    encode_utf8(s).len()
}

/// Byte length of a string, as `str::len` reports it.
fn text_len(s: &String) -> (n: usize)
    requires
        utf8_len(s@) <= usize::MAX,
    ensures
        n == utf8_len(s@),
{
    s.as_str().len()
}

/// Key-value string metadata of a tile; no key occurs twice.
#[derive(Debug, Clone)]
pub struct Metadata {
    entries: Vec<(String, String)>,
}

/// Total byte length of the keys and values in `entries`.
pub open spec fn entries_text_len(entries: Seq<(Seq<char>, Seq<char>)>) -> nat
    decreases entries.len(),
{
    if entries.len() == 0 {
        0
    } else {
        entries_text_len(entries.drop_last()) + utf8_len(entries.last().0) + utf8_len(
            entries.last().1,
        )
    }
}

/// The metadata text length adds up entry by entry: no entries have none,
/// and each further entry adds its key's and its value's byte lengths.
pub proof fn lemma_entries_text_len_additive(
    entries: Seq<(Seq<char>, Seq<char>)>,
    key: Seq<char>,
    value: Seq<char>,
)
    ensures
        entries_text_len(Seq::empty()) == 0,
        entries_text_len(entries.push((key, value))) == entries_text_len(entries) + utf8_len(key)
            + utf8_len(value),
        entries_text_len(seq![(key, value)]) == utf8_len(key) + utf8_len(value),
{
    assert(entries.push((key, value)).drop_last() =~= entries);
    assert(seq![(key, value)].drop_last() =~= Seq::<(Seq<char>, Seq<char>)>::empty());
}

impl Metadata {
    /// The entries in the order their keys were first inserted.
    pub closed spec fn entries(&self) -> Seq<(Seq<char>, Seq<char>)> {
        Seq::new(self.entries@.len(), |i: int| (self.entries@[i].0@, self.entries@[i].1@))
    }

    /// No key occurs twice.
    pub open spec fn wf(&self) -> bool {
        forall|i: int, j: int|
            0 <= i < self.entries().len() && 0 <= j < self.entries().len() && i != j
                ==> #[trigger] self.entries()[i].0 != #[trigger] self.entries()[j].0
    }

    pub fn new() -> (m: Self)
        ensures
            m.wf(),
            m.entries() == Seq::<(Seq<char>, Seq<char>)>::empty(),
    {
        let m = Metadata { entries: Vec::new() };
        assert(m.entries() =~= Seq::<(Seq<char>, Seq<char>)>::empty());
        m
    }

    /// Number of entries.
    pub fn len(&self) -> (n: usize)
        ensures
            n == self.entries().len(),
    {
        self.entries.len()
    }

    /// The key and value of entry `i`.
    pub fn entry_at(&self, i: usize) -> (e: (&String, &String))
        requires
            i < self.entries().len(),
        ensures
            e.0@ == self.entries()[i as int].0,
            e.1@ == self.entries()[i as int].1,
    {
        (&self.entries[i].0, &self.entries[i].1)
    }

    /// Sets the value of `key`, returning the value it replaced. A new key
    /// goes after the existing ones.
    pub fn insert(&mut self, key: String, value: String) -> (old_value: Option<String>)
        requires
            old(self).wf(),
        ensures
            final(self).wf(),
            match old_value {
                Some(v) => exists|i: int|
                    0 <= i < old(self).entries().len() && old(self).entries()[i].0 == key@
                        && v@ == old(self).entries()[i].1 && final(self).entries() == old(
                        self,
                    ).entries().update(i, (key@, value@)),
                None => (forall|i: int|
                    0 <= i < old(self).entries().len() ==> old(self).entries()[i].0 != key@)
                    && final(self).entries() == old(self).entries().push((key@, value@)),
            },
    {
        let mut i: usize = 0;
        while i < self.entries.len()
            invariant
                i <= self.entries().len(),
                self == old(self),
                old(self).wf(),
                forall|j: int| 0 <= j < i ==> self.entries()[j].0 != key@,
            decreases self.entries().len() - i,
        {
            if self.entries[i].0 == key {
                assert(old(self).entries()[i as int].0 == key@);
                let mut pair = (key, value);
                self.entries.set_and_swap(i, &mut pair);
                proof {
                    assert(self.entries() =~= old(self).entries().update(i as int, (key@, value@)));
                    assert forall|a: int, b: int|
                        0 <= a < self.entries().len() && 0 <= b < self.entries().len() && a != b
                            implies #[trigger] self.entries()[a].0 != #[trigger] self.entries()[b].0 by {
                        assert(self.entries()[a].0 == old(self).entries()[a].0);
                        assert(self.entries()[b].0 == old(self).entries()[b].0);
                        assert(old(self).entries()[a].0 != old(self).entries()[b].0);
                    }
                }
                return Some(pair.1);
            }
            i = i + 1;
        }
        self.entries.push((key, value));
        proof {
            assert(self.entries() =~= old(self).entries().push((key@, value@)));
            assert forall|a: int, b: int|
                0 <= a < self.entries().len() && 0 <= b < self.entries().len() && a != b
                    implies #[trigger] self.entries()[a].0 != #[trigger] self.entries()[b].0 by {
                if a < old(self).entries().len() && b < old(self).entries().len() {
                    assert(old(self).entries()[a].0 != old(self).entries()[b].0);
                }
            }
        }
        None
    }

    /// Total byte length of keys and values.
    fn text_len(&self) -> (n: usize)
        requires
            entries_text_len(self.entries()) <= usize::MAX,
        ensures
            n == entries_text_len(self.entries()),
    {
        let mut total: usize = 0;
        let mut i: usize = 0;
        while i < self.entries.len()
            invariant
                i <= self.entries().len(),
                entries_text_len(self.entries()) <= usize::MAX,
                total == entries_text_len(self.entries().take(i as int)),
            decreases self.entries().len() - i,
        {
            proof {
                let t = self.entries().take(i as int + 1);
                assert(t.drop_last() =~= self.entries().take(i as int));
                lemma_entries_text_len_prefix(self.entries(), i as int + 1);
            }
            let k = text_len(&self.entries[i].0);
            let v = text_len(&self.entries[i].1);
            total = total + k + v;
            i = i + 1;
        }
        assert(self.entries().take(i as int) =~= self.entries());
        total
    }
}

proof fn lemma_entries_text_len_prefix(entries: Seq<(Seq<char>, Seq<char>)>, n: int)
    requires
        0 <= n <= entries.len(),
    ensures
        entries_text_len(entries.take(n)) <= entries_text_len(entries),
    decreases entries.len(),
{
    if n < entries.len() {
        assert(entries.drop_last().take(n) =~= entries.take(n));
        lemma_entries_text_len_prefix(entries.drop_last(), n);
    } else {
        assert(entries.take(n) =~= entries);
    }
}

/// An uncompressed tile; each sample of `content` is the bit pattern of an
/// `f64`.
#[derive(Debug, Clone)]
pub struct RawTile {
    pub id: String,
    pub room_id: String,
    pub timestamp: u64,
    pub content: Vec<u64>,
    pub metadata: Metadata,
}

/// Approximate in-memory size of a tile: its two names, the timestamp, the
/// length word of the content, eight bytes per sample, and the metadata text.
pub open spec fn tile_size(t: RawTile) -> nat {
    utf8_len(t.id@) + utf8_len(t.room_id@) + vstd::layout::size_of::<u64>()
        + vstd::layout::size_of::<usize>() + t.content@.len() * vstd::layout::size_of::<u64>()
        + entries_text_len(t.metadata.entries())
}

/// A metadata entry under a new key adds exactly its key's and its value's
/// byte lengths to the size of a tile that is otherwise unchanged.
pub proof fn lemma_tile_size_new_entry(t: RawTile, u: RawTile, key: Seq<char>, value: Seq<char>)
    requires
        u.id@ == t.id@,
        u.room_id@ == t.room_id@,
        u.content@.len() == t.content@.len(),
        u.metadata.entries() == t.metadata.entries().push((key, value)),
    ensures
        tile_size(u) == tile_size(t) + utf8_len(key) + utf8_len(value),
{
    lemma_entries_text_len_additive(t.metadata.entries(), key, value);
}

impl RawTile {
    pub fn new(id: &str, room_id: &str, content: Vec<u64>) -> (t: Self)
        ensures
            t.id@ == id@,
            t.room_id@ == room_id@,
            t.timestamp == 0,
            t.content@ == content@,
            t.metadata.wf(),
            t.metadata.entries().len() == 0,
    {
        RawTile {
            id: id.to_owned(),
            room_id: room_id.to_owned(),
            timestamp: 0,
            content,
            metadata: Metadata::new(),
        }
    }

    /// Approximate in-memory size in bytes.
    pub fn byte_size(&self) -> (n: usize)
        requires
            tile_size(*self) <= usize::MAX,
        ensures
            n == tile_size(*self),
    {
        let base = text_len(&self.id) + text_len(&self.room_id) + core::mem::size_of::<u64>()
            + core::mem::size_of::<usize>();
        let content = self.content.len() * core::mem::size_of::<u64>();
        let meta = self.metadata.text_len();
        base + content + meta
    }
}

/// A compressed tile; `quality` is the bit pattern of an `f64`.
#[derive(Debug, Clone)]
pub struct CompressedTile {
    pub id: String,
    pub strategy: CompressionStrategy,
    pub data: Vec<u8>,
    pub original_size: usize,
    pub quality: u64,
}

/// The bit pattern of `1.0`.
pub const ONE: u64 = 0x3ff0_0000_0000_0000;

/// The bit pattern of the largest `f64` below `1.0`, `1 - 2^-53`.
pub const JUST_BELOW_ONE: u64 = 0x3fef_ffff_ffff_ffff;

/// Whether the quality `q` lies within one machine epsilon (`2^-52`) of
/// `1.0`. Among all `f64`s only `1.0` itself and `1 - 2^-53` do: the
/// neighbours on either side are a full epsilon or more away, and NaN is
/// never within any distance.
pub open spec fn within_epsilon_of_one(q: u64) -> bool {
    q == ONE || q == JUST_BELOW_ONE
}

impl CompressedTile {
    /// True if the quality is 1.0, up to one machine epsilon.
    pub fn is_lossless(&self) -> (b: bool)
        ensures
            b == within_epsilon_of_one(self.quality),
    {
        self.quality == ONE || self.quality == JUST_BELOW_ONE
    }
}

} // verus!
