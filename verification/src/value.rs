//! The parsed value tree and its mathematical model.

use crate::lexical::{
    compare_keys, lemma_lex_transitive, lemma_lex_trichotomy, lex_lt, strictly_ascending, KeyOrder,
};
use vstd::prelude::*;

verus! {

/// The mathematical value that a parsed tree stands for.
pub ghost enum Bencode {
    Integer(int),
    ByteString(Seq<u8>),
    List(Seq<Bencode>),
    Dictionary(Map<Seq<u8>, Bencode>),
}

/// A parsed bencode value whose byte strings borrow from the parsed buffer.
#[derive(Debug, Ord, PartialOrd, Eq, PartialEq, Hash)]
pub enum BencodeItemView<'a> {
    /// An integer in the 64-bit signed range.
    Integer(i64),
    /// An arbitrary byte string.
    ByteString(&'a [u8]),
    /// An ordered, possibly heterogeneous, sequence of values.
    List(Vec<BencodeItemView<'a>>),
    /// A mapping from byte-string keys to values.
    Dictionary(BencodeDict<'a>),
}

/// A mapping from byte-string keys to values. The keys are unique and are
/// kept, and handed out, in ascending byte-lexicographic order.
#[derive(Debug, Ord, PartialOrd, Eq, PartialEq, Hash)]
pub struct BencodeDict<'a> {
    entries: Vec<(&'a [u8], BencodeItemView<'a>)>,
}

/// The models of the values of a list, in order.
pub open spec fn items_model(items: Seq<BencodeItemView>) -> Seq<Bencode>
    decreases items,
{
    Seq::new(
        items.len(),
        |i: int|
            if 0 <= i < items.len() {
                items[i].view()
            } else {
                arbitrary()
            },
    )
}

/// The keys of a sequence of entries, in order.
spec fn entry_keys(entries: Seq<(&[u8], BencodeItemView)>) -> Seq<Seq<u8>> {
    Seq::new(entries.len(), |i: int| entries[i].0@)
}

/// A position at which `k` stands among the keys of `entries`, if there is
/// one.
spec fn key_index(entries: Seq<(&[u8], BencodeItemView)>, k: Seq<u8>) -> int {
    choose|i: int| 0 <= i < entries.len() && #[trigger] entries[i].0@ == k
}

/// The mapping that a sequence of entries stands for.
spec fn entries_model(entries: Seq<(&[u8], BencodeItemView)>) -> Map<Seq<u8>, Bencode>
    decreases entries,
{
    Map::new(
        |k: Seq<u8>| exists|i: int| 0 <= i < entries.len() && #[trigger] entries[i].0@ == k,
        |k: Seq<u8>|
            {
                let i = key_index(entries, k);
                if 0 <= i < entries.len() {
                    entries[i].1.view()
                } else {
                    arbitrary()
                }
            },
    )
}

impl<'a> View for BencodeItemView<'a> {
    type V = Bencode;

    open spec fn view(&self) -> Bencode
        decreases self,
    {
        match self {
            BencodeItemView::Integer(n) => Bencode::Integer(*n as int),
            BencodeItemView::ByteString(b) => Bencode::ByteString(b@),
            BencodeItemView::List(items) => Bencode::List(items_model(items@)),
            BencodeItemView::Dictionary(d) => Bencode::Dictionary(d.view()),
        }
    }
}

impl<'a> View for BencodeDict<'a> {
    type V = Map<Seq<u8>, Bencode>;

    closed spec fn view(&self) -> Map<Seq<u8>, Bencode>
        decreases self,
    {
        entries_model(self.entries@)
    }
}

/// With keys in strictly ascending order, the entry at `i` is what the
/// mapping holds under that entry's key.
proof fn lemma_model_lookup(entries: Seq<(&[u8], BencodeItemView)>, i: int)
    requires
        strictly_ascending(entry_keys(entries)),
        0 <= i < entries.len(),
    ensures
        entries_model(entries).contains_key(entries[i].0@),
        entries_model(entries)[entries[i].0@] == entries[i].1@,
{
    let k = entries[i].0@;
    let j = key_index(entries, k);
    let keys = entry_keys(entries);
    assert(keys[i] == k && keys[j] == k);
    lemma_lex_trichotomy(k, k);
    if j < i {
        assert(lex_lt(keys[j], keys[i]));
    } else if i < j {
        assert(lex_lt(keys[i], keys[j]));
    }
}

/// Putting an entry with a new key at its place in the order adds it to the
/// mapping.
proof fn lemma_insert_model(
    before: Seq<(&[u8], BencodeItemView)>,
    i: int,
    key: &[u8],
    value: BencodeItemView,
)
    requires
        0 <= i <= before.len(),
        strictly_ascending(entry_keys(before)),
        strictly_ascending(entry_keys(before.insert(i, (key, value)))),
    ensures
        entries_model(before.insert(i, (key, value))) == entries_model(before).insert(
            key@,
            value@,
        ),
{
    let after = before.insert(i, (key, value));
    let m1 = entries_model(after);
    let m2 = entries_model(before).insert(key@, value@);
    assert forall|q: Seq<u8>| #[trigger] m1.contains_key(q) implies m2.contains_key(q) by {
        let j = key_index(after, q);
        assert(0 <= j < after.len() && after[j].0@ == q);
        if j < i {
            assert(before[j].0@ == q);
            assert(entries_model(before).contains_key(q));
        } else if j > i {
            assert(before[j - 1].0@ == q);
            assert(entries_model(before).contains_key(q));
        } else {
            assert(q == key@);
        }
    }
    assert forall|q: Seq<u8>| #[trigger] m2.contains_key(q) implies m1.contains_key(q) && m1[q]
        == m2[q] by {
        if q == key@ {
            assert(after[i].0@ == q);
            lemma_model_lookup(after, i);
        } else {
            let j = key_index(before, q);
            lemma_model_lookup(before, j);
            if j < i {
                assert(after[j] == before[j]);
                lemma_model_lookup(after, j);
            } else {
                assert(after[j + 1] == before[j]);
                lemma_model_lookup(after, j + 1);
            }
        }
    }
    assert(m1 =~= m2);
}

/// Giving the entry at `i` a new value, under a key with the same bytes,
/// overwrites what the mapping holds under that key.
proof fn lemma_replace_model(
    before: Seq<(&[u8], BencodeItemView)>,
    i: int,
    key: &[u8],
    value: BencodeItemView,
)
    requires
        0 <= i < before.len(),
        strictly_ascending(entry_keys(before)),
        before[i].0@ == key@,
    ensures
        strictly_ascending(entry_keys(before.update(i, (key, value)))),
        entries_model(before.update(i, (key, value))) == entries_model(before).insert(
            key@,
            value@,
        ),
{
    let after = before.update(i, (key, value));
    assert(entry_keys(after) =~= entry_keys(before));
    let m1 = entries_model(after);
    let m2 = entries_model(before).insert(key@, value@);
    assert forall|q: Seq<u8>| #[trigger] m1.contains_key(q) implies m2.contains_key(q) by {
        let j = key_index(after, q);
        assert(before[j].0@ == q);
    }
    assert forall|q: Seq<u8>| #[trigger] m2.contains_key(q) implies m1.contains_key(q) && m1[q]
        == m2[q] by {
        if q == key@ {
            assert(after[i].0@ == q);
            lemma_model_lookup(after, i);
        } else {
            let j = key_index(before, q);
            lemma_model_lookup(before, j);
            assert(after[j] == before[j]);
            lemma_model_lookup(after, j);
        }
    }
    assert(m1 =~= m2);
}

/// Entries with the same keys in the same order, and values with the same
/// models, stand for the same mapping.
proof fn lemma_same_model(
    a: Seq<(&[u8], BencodeItemView)>,
    b: Seq<(&[u8], BencodeItemView)>,
)
    requires
        strictly_ascending(entry_keys(a)),
        a.len() == b.len(),
        forall|i: int| 0 <= i < a.len() ==> (#[trigger] a[i]).0@ == b[i].0@ && a[i].1@ == b[i].1@,
    ensures
        entry_keys(a) == entry_keys(b),
        entries_model(a) == entries_model(b),
{
    assert(entry_keys(a) =~= entry_keys(b));
    let m1 = entries_model(a);
    let m2 = entries_model(b);
    assert forall|q: Seq<u8>| #[trigger] m1.contains_key(q) implies m2.contains_key(q) && m1[q]
        == m2[q] by {
        let j = key_index(a, q);
        assert(b[j].0@ == a[j].0@);
        lemma_model_lookup(a, j);
        lemma_model_lookup(b, j);
    }
    assert forall|q: Seq<u8>| #[trigger] m2.contains_key(q) implies m1.contains_key(q) by {
        let j = key_index(b, q);
        assert(a[j].0@ == b[j].0@);
    }
    assert(m1 =~= m2);
}

impl<'a> Clone for BencodeItemView<'a> {
    /// A tree of its own that stands for the same value and borrows from the
    /// same buffer.
    fn clone(&self) -> (copy: Self)
        ensures
            copy@ == self@,
        decreases self,
    {
        match self {
            BencodeItemView::Integer(n) => BencodeItemView::Integer(*n),
            BencodeItemView::ByteString(bytes) => BencodeItemView::ByteString(*bytes),
            BencodeItemView::List(items) => {
                let mut copies: Vec<BencodeItemView<'a>> = Vec::new();
                let mut i: usize = 0;
                while i < items.len()
                    invariant
                        *self == BencodeItemView::List(*items),
                        i <= items.len(),
                        copies.len() == i,
                        forall|j: int| 0 <= j < i ==> (#[trigger] copies@[j])@ == items@[j]@,
                    decreases items.len() - i,
                {
                    proof {
                        assert(decreases_to!(self->List_0 => self->List_0@[i as int]));
                    }
                    let item = items[i].clone();
                    copies.push(item);
                    i += 1;
                }
                assert(items_model(copies@) =~= items_model(items@));
                BencodeItemView::List(copies)
            },
            BencodeItemView::Dictionary(mapping) => BencodeItemView::Dictionary(mapping.clone()),
        }
    }
}

impl<'a> Clone for BencodeDict<'a> {
    /// A mapping of its own with the same keys and values.
    fn clone(&self) -> (copy: Self)
        ensures
            copy@ == self@,
            copy.keys() == self.keys(),
        decreases self,
    {
        proof {
            use_type_invariant(self);
        }
        let mut copies: Vec<(&'a [u8], BencodeItemView<'a>)> = Vec::new();
        let mut i: usize = 0;
        while i < self.entries.len()
            invariant
                i <= self.entries.len(),
                copies.len() == i,
                forall|j: int|
                    0 <= j < i ==> (#[trigger] self.entries@[j]).0@ == copies@[j].0@
                        && self.entries@[j].1@ == copies@[j].1@,
            decreases self.entries.len() - i,
        {
            let value = self.entries[i].1.clone();
            copies.push((self.entries[i].0, value));
            i += 1;
        }
        proof {
            lemma_same_model(self.entries@, copies@);
        }
        BencodeDict { entries: copies }
    }
}

impl<'a> BencodeDict<'a> {
    /// The keys in the order in which the entries are kept and handed out:
    /// the domain of the mapping in strictly ascending order.
    pub closed spec fn keys(&self) -> Seq<Seq<u8>> {
        entry_keys(self.entries@)
    }

    #[verifier::type_invariant]
    spec fn keys_ascend(&self) -> bool {
        strictly_ascending(entry_keys(self.entries@))
    }

    /// The empty mapping.
    pub fn new() -> (d: Self)
        ensures
            d@ == Map::<Seq<u8>, Bencode>::empty(),
            d.keys() == Seq::<Seq<u8>>::empty(),
    {
        let d = BencodeDict { entries: Vec::new() };
        assert(d@ =~= Map::<Seq<u8>, Bencode>::empty());
        assert(d.keys() =~= Seq::<Seq<u8>>::empty());
        d
    }

    /// The keys are exactly the domain of the mapping.
    pub proof fn lemma_keys_are_domain(self)
        ensures
            forall|k: Seq<u8>| self@.contains_key(k) <==> self.keys().contains(k),
    {
        let keys = self.keys();
        assert forall|k: Seq<u8>| self@.contains_key(k) implies keys.contains(k) by {
            let i = key_index(self.entries@, k);
            assert(keys[i] == k);
        }
        assert forall|k: Seq<u8>| keys.contains(k) implies self@.contains_key(k) by {
            let i = choose|i: int| 0 <= i < keys.len() && keys[i] == k;
            assert(self.entries@[i].0@ == k);
        }
    }

    /// The number of entries. The keys stand in strictly ascending order.
    pub fn len(&self) -> (n: usize)
        ensures
            n == self.keys().len(),
            strictly_ascending(self.keys()),
    {
        proof {
            use_type_invariant(self);
        }
        self.entries.len()
    }

    /// Whether the mapping holds no entry.
    pub fn is_empty(&self) -> (b: bool)
        ensures
            b == (self.keys().len() == 0),
    {
        self.entries.len() == 0
    }

    /// The entry at position `i` of the ascending key order, if there are
    /// that many.
    pub fn entry(&self, i: usize) -> (e: Option<(&'a [u8], &BencodeItemView<'a>)>)
        ensures
            strictly_ascending(self.keys()),
            match e {
                Some((k, v)) => i < self.keys().len() && k@ == self.keys()[i as int]
                    && self@.contains_key(k@) && v@ == self@[k@],
                None => i >= self.keys().len(),
            },
    {
        proof {
            use_type_invariant(self);
        }
        if i < self.entries.len() {
            proof {
                lemma_model_lookup(self.entries@, i as int);
            }
            Some((self.entries[i].0, &self.entries[i].1))
        } else {
            None
        }
    }

    /// The value under `key`, if the key is present.
    pub fn get(&self, key: &[u8]) -> (found: Option<&BencodeItemView<'a>>)
        ensures
            match found {
                Some(v) => self@.contains_key(key@) && v@ == self@[key@],
                None => !self@.contains_key(key@),
            },
    {
        proof {
            use_type_invariant(self);
        }
        let ghost keys = entry_keys(self.entries@);
        let mut lo: usize = 0;
        let mut hi: usize = self.entries.len();
        while lo < hi
            invariant
                keys == entry_keys(self.entries@),
                strictly_ascending(keys),
                lo <= hi <= self.entries.len(),
                forall|j: int| 0 <= j < lo ==> lex_lt(#[trigger] keys[j], key@),
                forall|j: int| hi <= j < keys.len() ==> lex_lt(key@, #[trigger] keys[j]),
            decreases hi - lo,
        {
            let mid = lo + (hi - lo) / 2;
            match compare_keys(self.entries[mid].0, key) {
                KeyOrder::Same => {
                    proof {
                        lemma_model_lookup(self.entries@, mid as int);
                    }
                    return Some(&self.entries[mid].1);
                },
                KeyOrder::Before => {
                    proof {
                        assert(keys[mid as int] == self.entries@[mid as int].0@);
                        assert forall|j: int| 0 <= j < mid + 1 implies lex_lt(
                            #[trigger] keys[j],
                            key@,
                        ) by {
                            if j < mid {
                                assert(lex_lt(keys[j], keys[mid as int]));
                                lemma_lex_transitive(keys[j], keys[mid as int], key@);
                            }
                        }
                    }
                    lo = mid + 1;
                },
                KeyOrder::After => {
                    proof {
                        assert(keys[mid as int] == self.entries@[mid as int].0@);
                        assert forall|j: int| mid <= j < keys.len() implies lex_lt(
                            key@,
                            #[trigger] keys[j],
                        ) by {
                            if j > mid {
                                assert(lex_lt(keys[mid as int], keys[j]));
                                lemma_lex_transitive(key@, keys[mid as int], keys[j]);
                            }
                        }
                    }
                    hi = mid;
                },
            }
        }
        proof {
            assert forall|j: int| 0 <= j < self.entries@.len() implies self.entries@[j].0@
                != key@ by {
                lemma_lex_trichotomy(keys[j], key@);
            }
        }
        None
    }

    /// Puts `value` under `key`. Where the key was present, its value is
    /// overwritten and the earlier value is handed back.
    pub fn insert(&mut self, key: &'a [u8], value: BencodeItemView<'a>) -> (earlier: Option<
        BencodeItemView<'a>,
    >)
        ensures
            final(self)@ == old(self)@.insert(key@, value@),
            strictly_ascending(final(self).keys()),
            match earlier {
                Some(v) => old(self)@.contains_key(key@) && v@ == old(self)@[key@],
                None => !old(self)@.contains_key(key@),
            },
    {
        proof {
            use_type_invariant(&*self);
        }
        let ghost before = self.entries@;
        let mut entries: Vec<(&'a [u8], BencodeItemView<'a>)> = Vec::new();
        assert(entry_keys(entries@) =~= Seq::<Seq<u8>>::empty());
        core::mem::swap(&mut self.entries, &mut entries);
        let mut i: usize = entries.len();
        while i > 0
            invariant
                entries@ == before,
                before == old(self).entries@,
                strictly_ascending(entry_keys(before)),
                i <= before.len(),
                forall|j: int| i <= j < before.len() ==> lex_lt(key@, #[trigger] before[j].0@),
            ensures
                i == 0 || lex_lt(before[i - 1].0@, key@),
            decreases i,
        {
            match compare_keys(entries[i - 1].0, key) {
                KeyOrder::Before => {
                    break ;
                },
                KeyOrder::Same => {
                    let (kept, earlier) = entries.remove(i - 1);
                    entries.insert(i - 1, (kept, value));
                    proof {
                        assert(entries@ =~= before.update(i - 1, (kept, value)));
                        lemma_replace_model(before, i - 1, kept, value);
                        lemma_model_lookup(before, i - 1);
                    }
                    core::mem::swap(&mut self.entries, &mut entries);
                    return Some(earlier);
                },
                KeyOrder::After => {
                    i -= 1;
                },
            }
        }
        entries.insert(i, (key, value));
        proof {
            let after = before.insert(i as int, (key, value));
            let keys = entry_keys(after);
            let old_keys = entry_keys(before);
            assert forall|a: int, b: int| 0 <= a < b < keys.len() implies lex_lt(
                #[trigger] keys[a],
                #[trigger] keys[b],
            ) by {
                if b < i {
                    assert(lex_lt(old_keys[a], old_keys[b]));
                } else if a > i {
                    assert(lex_lt(old_keys[a - 1], old_keys[b - 1]));
                } else if a == i {
                    assert(after[b] == before[b - 1]);
                } else if b == i {
                    assert(lex_lt(old_keys[i - 1], key@));
                    if a < i - 1 {
                        assert(lex_lt(old_keys[a], old_keys[i - 1]));
                        lemma_lex_transitive(old_keys[a], old_keys[i - 1], key@);
                    }
                } else {
                    assert(lex_lt(old_keys[a], old_keys[b - 1]));
                }
            }
            lemma_insert_model(before, i as int, key, value);
            assert forall|j: int| 0 <= j < before.len() implies before[j].0@ != key@ by {
                lemma_lex_trichotomy(before[j].0@, key@);
                if j < i {
                    assert(lex_lt(old_keys[i - 1], key@));
                    if j < i - 1 {
                        assert(lex_lt(old_keys[j], old_keys[i - 1]));
                        lemma_lex_transitive(old_keys[j], old_keys[i - 1], key@);
                    }
                }
            }
        }
        core::mem::swap(&mut self.entries, &mut entries);
        None
    }
}

} // verus!
