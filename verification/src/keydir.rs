//! The in-memory index of the store: an ordered mapping from key to the
//! position of the latest `Set` record for that key.
//!
//! Entries are held sorted by the UTF-8 bytes of the key, which orders keys
//! exactly as their scalar values do, so iteration order is the natural
//! lexicographic order of keys and the output of compaction is a
//! deterministic function of the live set.
use vstd::prelude::*;
use vstd::utf8::{decode_utf8, encode_utf8};

verus! {

/// Where the latest `Set` record of a key lies: the segment version, the
/// byte offset of the record, and its encoded length.
#[derive(Clone, Copy, Debug)]
pub struct CommandPos {
    pub version: u64,
    pub pos: u64,
    pub len: u64,
}

/// Strict lexicographic order on byte strings.
pub open spec fn lex_lt(a: Seq<u8>, b: Seq<u8>) -> bool
    decreases a.len(),
{
    if b.len() == 0 {
        false
    } else if a.len() == 0 {
        true
    } else if a[0] < b[0] {
        true
    } else if a[0] > b[0] {
        false
    } else {
        lex_lt(a.skip(1), b.skip(1))
    }
}

/// Keys are ordered by their UTF-8 encodings.
pub open spec fn key_lt(x: Seq<char>, y: Seq<char>) -> bool {
    lex_lt(encode_utf8(x), encode_utf8(y))
}

pub proof fn lemma_lex_irrefl(a: Seq<u8>)
    ensures
        !lex_lt(a, a),
    decreases a.len(),
{
    if a.len() > 0 {
        lemma_lex_irrefl(a.skip(1));
    }
}

pub proof fn lemma_lex_connected(a: Seq<u8>, b: Seq<u8>)
    requires
        !lex_lt(a, b),
        !lex_lt(b, a),
    ensures
        a == b,
    decreases a.len(),
{
    if a.len() == 0 || b.len() == 0 {
        assert(a =~= b);
    } else {
        lemma_lex_connected(a.skip(1), b.skip(1));
        assert(a =~= seq![a[0]] + a.skip(1));
        assert(b =~= seq![b[0]] + b.skip(1));
    }
}

pub proof fn lemma_lex_trans(a: Seq<u8>, b: Seq<u8>, c: Seq<u8>)
    requires
        lex_lt(a, b),
        lex_lt(b, c),
    ensures
        lex_lt(a, c),
    decreases a.len(),
{
    if a.len() > 0 && b.len() > 0 && c.len() > 0 && a[0] == b[0] && b[0] == c[0] {
        lemma_lex_trans(a.skip(1), b.skip(1), c.skip(1));
    }
}

/// Two distinct keys have distinct encodings, and `key_lt` orders one of
/// them below the other.
pub proof fn lemma_key_order(x: Seq<char>, y: Seq<char>)
    ensures
        key_lt(x, y) ==> x != y,
        x != y ==> key_lt(x, y) || key_lt(y, x),
{
    broadcast use vstd::utf8::encode_utf8_decode_utf8;

    if key_lt(x, y) {
        lemma_lex_irrefl(encode_utf8(x));
    }
    if !key_lt(x, y) && !key_lt(y, x) {
        lemma_lex_connected(encode_utf8(x), encode_utf8(y));
        assert(decode_utf8(encode_utf8(x)) == decode_utf8(encode_utf8(y)));
    }
}

/// The mapping an entry list stands for; a later entry for the same key
/// would win, though a well-formed index never holds one.
pub open spec fn as_map(s: Seq<(String, CommandPos)>) -> Map<Seq<char>, CommandPos>
    decreases s.len(),
{
    if s.len() == 0 {
        Map::<Seq<char>, CommandPos>::empty()
    } else {
        as_map(s.drop_last()).insert(s.last().0@, s.last().1)
    }
}

/// Keys of the map are exactly the keys of the entries.
pub proof fn lemma_as_map_dom(s: Seq<(String, CommandPos)>, k: Seq<char>)
    ensures
        as_map(s).contains_key(k) <==> exists|i: int| 0 <= i < s.len() && s[i].0@ == k,
    decreases s.len(),
{
    if s.len() > 0 {
        lemma_as_map_dom(s.drop_last(), k);
        if as_map(s).contains_key(k) && s.last().0@ != k {
            let i = choose|i: int| 0 <= i < s.len() - 1 && s.drop_last()[i].0@ == k;
            assert(s[i].0@ == k);
        }
        if exists|i: int| 0 <= i < s.len() && s[i].0@ == k {
            let i = choose|i: int| 0 <= i < s.len() && s[i].0@ == k;
            if i < s.len() - 1 {
                assert(s.drop_last()[i].0@ == k);
            }
        }
    }
}

/// An entry whose key no later entry repeats gives the map's value at that
/// key.
pub proof fn lemma_as_map_at(s: Seq<(String, CommandPos)>, i: int)
    requires
        0 <= i < s.len(),
        forall|j: int| i < j < s.len() ==> s[j].0@ != s[i].0@,
    ensures
        as_map(s).contains_key(s[i].0@),
        as_map(s)[s[i].0@] == s[i].1,
    decreases s.len(),
{
    if i < s.len() - 1 {
        lemma_as_map_at(s.drop_last(), i);
    }
}

/// Splitting out one entry whose key recurs in no other entry.
pub proof fn lemma_as_map_mid(a: Seq<(String, CommandPos)>, x: (String, CommandPos), b: Seq<
    (String, CommandPos),
>)
    requires
        forall|i: int| 0 <= i < b.len() ==> b[i].0@ != x.0@,
    ensures
        as_map(a + seq![x] + b) == as_map(a + b).insert(x.0@, x.1),
    decreases b.len(),
{
    if b.len() == 0 {
        assert(a + seq![x] + b =~= a + seq![x]);
        assert((a + seq![x]).drop_last() =~= a);
        assert((a + seq![x]).last() == x);
        assert(a + b =~= a);
    } else {
        let b0 = b.drop_last();
        let y = b.last();
        assert(forall|i: int| 0 <= i < b0.len() ==> b0[i] == b[i]);
        lemma_as_map_mid(a, x, b0);
        assert((a + seq![x] + b).drop_last() =~= a + seq![x] + b0);
        assert((a + seq![x] + b).last() == y);
        assert((a + b).drop_last() =~= a + b0);
        assert((a + b).last() == y);
        assert(as_map(a + seq![x] + b) == as_map(a + b0).insert(x.0@, x.1).insert(y.0@, y.1));
        assert(y.0@ != x.0@);
        assert(as_map(a + b0).insert(x.0@, x.1).insert(y.0@, y.1) =~= as_map(a + b0).insert(
            y.0@,
            y.1,
        ).insert(x.0@, x.1));
    }
}

/// The ordered index.
pub struct KeyDir {
    entries: Vec<(String, CommandPos)>,
}

impl View for KeyDir {
    type V = Map<Seq<char>, CommandPos>;

    open spec fn view(&self) -> Map<Seq<char>, CommandPos> {
        as_map(self.entries_view())
    }
}

impl KeyDir {
    pub closed spec fn entries_view(&self) -> Seq<(String, CommandPos)> {
        self.entries@
    }

    /// Entries are strictly sorted by key.
    pub open spec fn wf(&self) -> bool {
        forall|i: int, j: int|
            0 <= i < j < self.entries_view().len() ==> key_lt(
                #[trigger] self.entries_view()[i].0@,
                #[trigger] self.entries_view()[j].0@,
            )
    }

    /// In a well-formed index no key repeats.
    pub proof fn lemma_distinct(&self)
        requires
            self.wf(),
        ensures
            forall|i: int, j: int|
                0 <= i < j < self.entries_view().len() ==> (#[trigger] self.entries_view()[i].0@)
                    != (#[trigger] self.entries_view()[j].0@),
    {
        assert forall|i: int, j: int| 0 <= i < j < self.entries_view().len() implies (
        #[trigger] self.entries_view()[i].0@) != (#[trigger] self.entries_view()[j].0@) by {
            lemma_key_order(self.entries_view()[i].0@, self.entries_view()[j].0@);
        }
    }

    pub fn new() -> (r: KeyDir)
        ensures
            r.wf(),
            r@ == Map::<Seq<char>, CommandPos>::empty(),
            r.entries_view() == Seq::<(String, CommandPos)>::empty(),
    {
        let r = KeyDir { entries: Vec::new() };
        proof {
            assert(r.entries_view() =~= Seq::<(String, CommandPos)>::empty());
        }
        r
    }

    pub fn len(&self) -> (r: usize)
        ensures
            r == self.entries_view().len(),
    {
        self.entries.len()
    }

    pub fn key_at(&self, i: usize) -> (r: &String)
        requires
            i < self.entries_view().len(),
        ensures
            r@ == self.entries_view()[i as int].0@,
    {
        &self.entries[i].0
    }

    pub fn cp_at(&self, i: usize) -> (r: CommandPos)
        requires
            i < self.entries_view().len(),
        ensures
            r == self.entries_view()[i as int].1,
    {
        self.entries[i].1
    }

    /// Compares two keys through their UTF-8 encodings: less, equal or
    /// greater, where equal means the keys themselves are equal.
    fn cmp_keys(a: &String, b: &String) -> (r: i8)
        ensures
            r == -1 ==> key_lt(a@, b@),
            r == 0 ==> a@ == b@,
            r == 1 ==> key_lt(b@, a@),
            r == -1 || r == 0 || r == 1,
    {
        let ab = a.as_str().as_bytes();
        let bb = b.as_str().as_bytes();
        let ghost ea = encode_utf8(a@);
        let ghost eb = encode_utf8(b@);
        let alen = ab.len();
        let blen = bb.len();
        let n = if alen < blen {
            alen
        } else {
            blen
        };
        let mut i: usize = 0;
        while i < n
            invariant
                n <= ab@.len() && n <= bb@.len(),
                ab@ == ea && bb@ == eb,
                ea == encode_utf8(a@) && eb == encode_utf8(b@),
                alen == ab@.len() && blen == bb@.len(),
                i <= n,
                forall|k: int| 0 <= k < i ==> ea[k] == eb[k],
            decreases n - i,
        {
            let x = ab[i];
            let y = bb[i];
            if x < y {
                proof {
                    lemma_lex_skip(ea, eb, i as int);
                    assert(ea.skip(i as int)[0] == x && eb.skip(i as int)[0] == y);
                    assert(lex_lt(ea.skip(i as int), eb.skip(i as int)));
                }
                return -1;
            }
            if x > y {
                proof {
                    lemma_lex_skip(eb, ea, i as int);
                    assert(eb.skip(i as int)[0] == y && ea.skip(i as int)[0] == x);
                    assert(lex_lt(eb.skip(i as int), ea.skip(i as int)));
                }
                return 1;
            }
            i = i + 1;
        }
        if alen < blen {
            proof {
                lemma_lex_skip(ea, eb, n as int);
                assert(ea.skip(n as int).len() == 0 && eb.skip(n as int).len() > 0);
            }
            return -1;
        }
        if alen > blen {
            proof {
                lemma_lex_skip(eb, ea, n as int);
                assert(eb.skip(n as int).len() == 0 && ea.skip(n as int).len() > 0);
            }
            return 1;
        }
        proof {
            assert(ea =~= eb);
            broadcast use vstd::utf8::encode_utf8_decode_utf8;

            assert(decode_utf8(ea) == decode_utf8(eb));
        }
        0
    }

    /// Finds where `key` is or belongs: a position `p` with every earlier
    /// key below `key`; `found` tells whether the entry at `p` carries
    /// `key` itself, else every key from `p` on lies above it.
    fn search(&self, key: &String) -> (r: (usize, bool))
        requires
            self.wf(),
        ensures
            r.0 <= self.entries_view().len(),
            forall|i: int| 0 <= i < r.0 ==> key_lt(#[trigger] self.entries_view()[i].0@, key@),
            r.1 ==> r.0 < self.entries_view().len() && self.entries_view()[r.0 as int].0@ == key@,
            !r.1 ==> forall|i: int|
                r.0 <= i < self.entries_view().len() ==> key_lt(
                    key@,
                    #[trigger] self.entries_view()[i].0@,
                ),
    {
        let ghost es = self.entries_view();
        let mut lo: usize = 0;
        let mut hi: usize = self.entries.len();
        while lo < hi
            invariant
                self.wf(),
                es == self.entries_view(),
                lo <= hi <= es.len(),
                forall|i: int| 0 <= i < lo ==> key_lt(#[trigger] es[i].0@, key@),
                forall|i: int| hi <= i < es.len() ==> key_lt(key@, #[trigger] es[i].0@),
            decreases hi - lo,
        {
            let mid = lo + (hi - lo) / 2;
            let c = Self::cmp_keys(&self.entries[mid].0, key);
            if c == -1 {
                proof {
                    assert forall|i: int| 0 <= i < mid + 1 implies key_lt(
                        #[trigger] es[i].0@,
                        key@,
                    ) by {
                        if i < mid {
                            lemma_lex_trans(
                                encode_utf8(es[i].0@),
                                encode_utf8(es[mid as int].0@),
                                encode_utf8(key@),
                            );
                        }
                    }
                }
                lo = mid + 1;
            } else if c == 1 {
                proof {
                    assert forall|i: int| mid <= i < es.len() implies key_lt(
                        key@,
                        #[trigger] es[i].0@,
                    ) by {
                        if i > mid {
                            lemma_lex_trans(
                                encode_utf8(key@),
                                encode_utf8(es[mid as int].0@),
                                encode_utf8(es[i].0@),
                            );
                        }
                    }
                }
                hi = mid;
            } else {
                return (mid, true);
            }
        }
        proof {
            assert forall|i: int| lo <= i < es.len() implies key_lt(key@, #[trigger] es[i].0@) by {}
        }
        (lo, false)
    }

    /// Looks the key up.
    pub fn get(&self, key: &String) -> (r: Option<CommandPos>)
        requires
            self.wf(),
        ensures
            (match r {
                Some(p) => self@.contains_key(key@) && self@[key@] == p,
                None => !self@.contains_key(key@),
            }),
    {
        let (p, found) = self.search(key);
        if found {
            proof {
                self.lemma_distinct();
                lemma_as_map_at(self.entries_view(), p as int);
            }
            Some(self.entries[p].1)
        } else {
            proof {
                lemma_as_map_dom(self.entries_view(), key@);
                assert forall|i: int| 0 <= i < self.entries_view().len() implies (
                #[trigger] self.entries_view()[i].0@) != key@ by {
                    lemma_key_order(self.entries_view()[i].0@, key@);
                }
            }
            None
        }
    }

    /// Inserts or replaces, returning the displaced position if the key was
    /// already present.
    pub fn insert(&mut self, key: String, cp: CommandPos) -> (prev: Option<CommandPos>)
        requires
            old(self).wf(),
        ensures
            final (self).wf(),
            final (self)@ == old(self)@.insert(key@, cp),
            (match prev {
                Some(p) => old(self)@.contains_key(key@) && old(self)@[key@] == p,
                None => !old(self)@.contains_key(key@),
            }),
            final (self).entries_view().len() == old(self).entries_view().len() + (
            if old(self)@.contains_key(key@) {
                0int
            } else {
                1int
            }),
            exists|p: int|
                #![auto]
                0 <= p <= old(self).entries_view().len() && (if old(self)@.contains_key(key@) {
                    p < old(self).entries_view().len() && old(self).entries_view()[p].0@ == key@
                        && final (self).entries_view() == old(self).entries_view().update(
                        p,
                        (key, cp),
                    )
                } else {
                    final (self).entries_view() == old(self).entries_view().insert(p, (key, cp))
                }),
    {
        let ghost es = old(self).entries_view();
        let (p, found) = self.search(&key);
        if found {
            proof {
                self.lemma_distinct();
                lemma_as_map_at(es, p as int);
            }
            let prev_cp = self.entries[p].1;
            self.entries.remove(p);
            self.entries.insert(p, (key, cp));
            proof {
                let a = es.take(p as int);
                let b = es.skip(p as int + 1);
                let x = es[p as int];
                let x2 = self.entries_view()[p as int];
                assert(es =~= a + seq![x] + b);
                assert(self.entries_view() =~= a + seq![x2] + b);
                assert forall|i: int| 0 <= i < b.len() implies b[i].0@ != x.0@ by {
                    lemma_key_order(es[p + 1 + i].0@, x.0@);
                }
                lemma_as_map_mid(a, x, b);
                lemma_as_map_mid(a, x2, b);
                assert(as_map(a + b).insert(x.0@, x.1).insert(key@, cp) =~= as_map(a + b).insert(
                    key@,
                    cp,
                ));
                assert(final (self)@ == old(self)@.insert(key@, cp));
                assert forall|i: int, j: int|
                    0 <= i < j < self.entries_view().len() implies key_lt(
                    #[trigger] self.entries_view()[i].0@,
                    #[trigger] self.entries_view()[j].0@,
                ) by {
                    assert(es[i].0@ == self.entries_view()[i].0@ || i == p);
                    assert(es[j].0@ == self.entries_view()[j].0@ || j == p);
                }
                lemma_as_map_dom(es, key@);
                assert(self.entries_view() =~= es.update(p as int, (key, cp)));
            }
            Some(prev_cp)
        } else {
            self.entries.insert(p, (key, cp));
            proof {
                let a = es.take(p as int);
                let b = es.skip(p as int);
                let x = self.entries_view()[p as int];
                assert(es =~= a + b);
                assert(self.entries_view() =~= a + seq![x] + b);
                assert forall|i: int| 0 <= i < b.len() implies b[i].0@ != x.0@ by {
                    lemma_key_order(x.0@, es[p + i].0@);
                }
                lemma_as_map_mid(a, x, b);
                assert(final (self)@ == old(self)@.insert(key@, cp));
                assert forall|i: int, j: int|
                    0 <= i < j < self.entries_view().len() implies key_lt(
                    #[trigger] self.entries_view()[i].0@,
                    #[trigger] self.entries_view()[j].0@,
                ) by {
                    if i < p && j > p {
                        assert(key_lt(es[i].0@, self.entries_view()[j].0@));
                    }
                }
                lemma_as_map_dom(es, key@);
                assert forall|i: int| 0 <= i < es.len() implies (#[trigger] es[i].0@) != key@ by {
                    lemma_key_order(es[i].0@, key@);
                }
            }
            None
        }
    }

    /// Drops the key, returning the entry it held.
    pub fn remove(&mut self, key: &String) -> (prev: Option<CommandPos>)
        requires
            old(self).wf(),
        ensures
            final (self).wf(),
            final (self)@ == old(self)@.remove(key@),
            (match prev {
                Some(p) => old(self)@.contains_key(key@) && old(self)@[key@] == p,
                None => !old(self)@.contains_key(key@) && final (self)@ == old(self)@,
            }),
            old(self)@.contains_key(key@) ==> exists|p: int|
                #![auto]
                0 <= p < old(self).entries_view().len() && old(self).entries_view()[p].0@ == key@
                    && final (self).entries_view() == old(self).entries_view().remove(p),
            !old(self)@.contains_key(key@) ==> final (self).entries_view() == old(
                self,
            ).entries_view(),
    {
        let ghost es = old(self).entries_view();
        let (p, found) = self.search(key);
        if found {
            proof {
                self.lemma_distinct();
                lemma_as_map_at(es, p as int);
            }
            let prev_cp = self.entries[p].1;
            self.entries.remove(p);
            proof {
                let a = es.take(p as int);
                let b = es.skip(p as int + 1);
                let x = es[p as int];
                assert(es =~= a + seq![x] + b);
                assert(self.entries_view() =~= a + b);
                assert forall|i: int| 0 <= i < b.len() implies b[i].0@ != x.0@ by {
                    lemma_key_order(es[p + 1 + i].0@, x.0@);
                }
                lemma_as_map_mid(a, x, b);
                lemma_as_map_dom(a + b, key@);
                assert forall|i: int| 0 <= i < (a + b).len() implies (#[trigger] (a + b)[i].0@)
                    != key@ by {
                    if i < p {
                        lemma_key_order(es[i].0@, key@);
                    } else {
                        lemma_key_order(es[i + 1].0@, key@);
                    }
                }
                assert(as_map(a + b).insert(key@, x.1).remove(key@) =~= as_map(a + b));
                assert(final (self)@ == old(self)@.remove(key@));
                assert forall|i: int, j: int|
                    0 <= i < j < self.entries_view().len() implies key_lt(
                    #[trigger] self.entries_view()[i].0@,
                    #[trigger] self.entries_view()[j].0@,
                ) by {
                    let i0 = if i < p {
                        i
                    } else {
                        i + 1
                    };
                    let j0 = if j < p {
                        j
                    } else {
                        j + 1
                    };
                    assert(self.entries_view()[i].0@ == es[i0].0@);
                    assert(self.entries_view()[j].0@ == es[j0].0@);
                }
            }
            Some(prev_cp)
        } else {
            proof {
                lemma_as_map_dom(es, key@);
                assert forall|i: int| 0 <= i < es.len() implies (#[trigger] es[i].0@) != key@ by {
                    lemma_key_order(es[i].0@, key@);
                }
                assert(old(self)@.remove(key@) =~= old(self)@);
            }
            None
        }
    }
}

/// The bytes the index keeps live: the sum of the record lengths of its
/// entries.
pub open spec fn sum_lens(s: Seq<(String, CommandPos)>) -> int
    decreases s.len(),
{
    if s.len() == 0 {
        0
    } else {
        sum_lens(s.drop_last()) + s.last().1.len
    }
}

pub proof fn lemma_sum_update(s: Seq<(String, CommandPos)>, p: int, x: (String, CommandPos))
    requires
        0 <= p < s.len(),
    ensures
        sum_lens(s.update(p, x)) == sum_lens(s) - s[p].1.len + x.1.len,
    decreases s.len(),
{
    if p == s.len() - 1 {
        assert(s.update(p, x).drop_last() =~= s.drop_last());
        assert(s.update(p, x).last() == x);
    } else {
        assert(s.update(p, x).drop_last() =~= s.drop_last().update(p, x));
        assert(s.update(p, x).last() == s.last());
        lemma_sum_update(s.drop_last(), p, x);
    }
}

pub proof fn lemma_sum_insert(s: Seq<(String, CommandPos)>, p: int, x: (String, CommandPos))
    requires
        0 <= p <= s.len(),
    ensures
        sum_lens(s.insert(p, x)) == sum_lens(s) + x.1.len,
    decreases s.len(),
{
    if p == s.len() {
        assert(s.insert(p, x).drop_last() =~= s);
        assert(s.insert(p, x).last() == x);
    } else {
        assert(s.insert(p, x).drop_last() =~= s.drop_last().insert(p, x));
        assert(s.insert(p, x).last() == s.last());
        lemma_sum_insert(s.drop_last(), p, x);
    }
}

pub proof fn lemma_sum_remove(s: Seq<(String, CommandPos)>, p: int)
    requires
        0 <= p < s.len(),
    ensures
        sum_lens(s.remove(p)) == sum_lens(s) - s[p].1.len,
    decreases s.len(),
{
    if p == s.len() - 1 {
        assert(s.remove(p) =~= s.drop_last());
    } else {
        assert(s.remove(p).drop_last() =~= s.drop_last().remove(p));
        assert(s.remove(p).last() == s.last());
        lemma_sum_remove(s.drop_last(), p);
    }
}

/// Two entry lists whose records have pointwise equal lengths keep the
/// same bytes live.
pub proof fn lemma_sum_pointwise(s1: Seq<(String, CommandPos)>, s2: Seq<(String, CommandPos)>)
    requires
        s1.len() == s2.len(),
        forall|j: int| 0 <= j < s1.len() ==> (#[trigger] s1[j]).1.len == s2[j].1.len,
    ensures
        sum_lens(s1) == sum_lens(s2),
    decreases s1.len(),
{
    if s1.len() > 0 {
        assert(forall|j: int|
            0 <= j < s1.drop_last().len() ==> (#[trigger] s1.drop_last()[j]).1.len
                == s2.drop_last()[j].1.len);
        lemma_sum_pointwise(s1.drop_last(), s2.drop_last());
        assert(s1.last().1.len == s2.last().1.len);
    }
}

/// `lex_lt` looks only at the first differing position: skipping a common
/// prefix does not change it.
pub proof fn lemma_lex_skip(a: Seq<u8>, b: Seq<u8>, i: int)
    requires
        0 <= i <= a.len(),
        i <= b.len(),
        forall|k: int| 0 <= k < i ==> a[k] == b[k],
    ensures
        lex_lt(a, b) == lex_lt(a.skip(i), b.skip(i)),
    decreases i,
{
    if i > 0 {
        assert(a.len() > 0 && b.len() > 0 && a[0] == b[0]);
        lemma_lex_skip(a.skip(1), b.skip(1), i - 1);
        assert(a.skip(1).skip(i - 1) =~= a.skip(i));
        assert(b.skip(1).skip(i - 1) =~= b.skip(i));
    } else {
        assert(a.skip(0) =~= a);
        assert(b.skip(0) =~= b);
    }
}

} // verus!
