use vstd::prelude::*;
use vstd::string::StringSliceAdditionalSpecFns;

verus! {

/// The space that separates words and starts a text.
pub const SPACE: u8 = 32;

/// The history after `byte` is read: the bytes looked back at move on by
/// one.
pub open spec fn shift(key: Seq<u8>, byte: u8) -> Seq<u8> {
    if key.len() == 0 {
        key
    } else {
        key.drop_first().push(byte)
    }
}

/// The characters a character-level model looks back at.
pub trait NGram: Sized {
    /// The bytes looked back at, oldest first.
    spec fn key(&self) -> Seq<u8>;

    /// The history at the start of a text: spaces only.
    fn start() -> (r: Self)
        ensures
            forall|i: int| 0 <= i < r.key().len() ==> #[trigger] r.key()[i] == SPACE,
    ;

    /// Moves the history on by one character.
    fn update(&mut self, byte: u8)
        ensures
            final(self).key() == shift(old(self).key(), byte),
    ;

    /// Whether the two histories look back at the same bytes.
    fn same(&self, other: &Self) -> (r: bool)
        ensures
            r == (self.key() == other.key()),
    ;
}

impl NGram for () {
    open spec fn key(&self) -> Seq<u8> {
        Seq::empty()
    }

    fn start() -> (r: Self) {
    }

    fn update(&mut self, byte: u8) {
    }

    fn same(&self, other: &Self) -> (r: bool) {
        true
    }
}

impl NGram for u8 {
    open spec fn key(&self) -> Seq<u8> {
        seq![*self]
    }

    fn start() -> (r: Self)
        ensures
            r == SPACE,
    {
        SPACE
    }

    fn update(&mut self, byte: u8)
        ensures
            *final(self) == byte,
    {
        *self = byte;
        assert(seq![byte] =~= shift(seq![*old(self)], byte));
    }

    fn same(&self, other: &Self) -> (r: bool) {
        proof {
            if *self != *other {
                assert(seq![*self][0] != seq![*other][0]);
            }
        }
        *self == *other
    }
}

impl NGram for [u8; 2] {
    open spec fn key(&self) -> Seq<u8> {
        self@
    }

    fn start() -> (r: Self)
        ensures
            r@ == seq![SPACE, SPACE],
    {
        let r = [SPACE, SPACE];
        assert(r@ =~= seq![SPACE, SPACE]);
        r
    }

    fn update(&mut self, byte: u8)
        ensures
            final(self)@ == seq![old(self)@[1], byte],
    {
        let last = self[1];
        *self = [last, byte];
        assert(final(self)@ =~= seq![old(self)@[1], byte]);
        assert(shift(old(self)@, byte) =~= seq![old(self)@[1], byte]);
    }

    fn same(&self, other: &Self) -> (r: bool) {
        let r = self[0] == other[0] && self[1] == other[1];
        proof {
            if r {
                assert(self@ =~= other@);
            } else if self[0] != other[0] {
                assert(self@[0] != other@[0]);
            } else {
                assert(self@[1] != other@[1]);
            }
        }
        r
    }
}

/// The counts of the bytes after one history: how often each byte came
/// next, each byte once, in the order they first came.
pub type Succs = Vec<(u32, u8)>;

/// The position of the first count of `byte`, or the number of counts if
/// there is none.
pub open spec fn byte_at(succs: Seq<(u32, u8)>, byte: u8) -> int
    decreases succs.len(),
{
    if succs.len() == 0 {
        0
    } else if succs[0].1 == byte {
        0
    } else {
        1 + byte_at(succs.drop_first(), byte)
    }
}

/// The position of the first entry for history `key`, or the number of
/// entries if there is none.
pub open spec fn key_at(model: Seq<(Seq<u8>, Seq<(u32, u8)>)>, key: Seq<u8>) -> int
    decreases model.len(),
{
    if model.len() == 0 {
        0
    } else if model[0].0 == key {
        0
    } else {
        1 + key_at(model.drop_first(), key)
    }
}

/// The counts after `byte` came once more.
pub open spec fn bump(succs: Seq<(u32, u8)>, byte: u8) -> Seq<(u32, u8)> {
    let j = byte_at(succs, byte);
    if j < succs.len() {
        succs.update(j, ((succs[j].0 + 1) as u32, byte))
    } else {
        succs.push((1u32, byte))
    }
}

/// The model after `byte` came after history `key`: its counts bumped where
/// the history has an entry, else a new entry at the end.
pub open spec fn counted(model: Seq<(Seq<u8>, Seq<(u32, u8)>)>, key: Seq<u8>, byte: u8) -> Seq<(Seq<u8>, Seq<(u32, u8)>)> {
    let i = key_at(model, key);
    if i < model.len() {
        model.update(i, (key, bump(model[i].1, byte)))
    } else {
        model.push((key, seq![(1u32, byte)]))
    }
}

/// The first count of a byte is where it is, after counts of other bytes.
proof fn lemma_byte_at(succs: Seq<(u32, u8)>, byte: u8)
    ensures
        0 <= byte_at(succs, byte) <= succs.len(),
        byte_at(succs, byte) < succs.len() ==> succs[byte_at(succs, byte)].1 == byte,
        forall|l: int| 0 <= l < byte_at(succs, byte) ==> succs[l].1 != byte,
    decreases succs.len(),
{
    if succs.len() > 0 && succs[0].1 != byte {
        lemma_byte_at(succs.drop_first(), byte);
        assert forall|l: int| 0 <= l < byte_at(succs, byte) implies succs[l].1 != byte by {
            if l > 0 {
                assert(succs[l] == succs.drop_first()[l - 1]);
            }
        }
    }
}

/// The first entry of a history is where it is, after entries of other
/// histories.
proof fn lemma_key_at(model: Seq<(Seq<u8>, Seq<(u32, u8)>)>, key: Seq<u8>)
    ensures
        0 <= key_at(model, key) <= model.len(),
        key_at(model, key) < model.len() ==> model[key_at(model, key)].0 == key,
        forall|a: int| 0 <= a < key_at(model, key) ==> model[a].0 != key,
    decreases model.len(),
{
    if model.len() > 0 && model[0].0 != key {
        lemma_key_at(model.drop_first(), key);
        assert forall|a: int| 0 <= a < key_at(model, key) implies model[a].0 != key by {
            if a > 0 {
                assert(model[a] == model.drop_first()[a - 1]);
            }
        }
    }
}

/// A position before which no entry matches and at which one does is the
/// first match.
proof fn lemma_key_at_is(model: Seq<(Seq<u8>, Seq<(u32, u8)>)>, key: Seq<u8>, i: int)
    requires
        0 <= i <= model.len(),
        i < model.len() ==> model[i].0 == key,
        forall|a: int| 0 <= a < i ==> model[a].0 != key,
    ensures
        key_at(model, key) == i,
{
    lemma_key_at(model, key);
    let k = key_at(model, key);
    if k < i {
        assert(model[k].0 == key);
    } else if k > i {
        assert(model[i].0 != key);
    }
}

/// A position before which no count is of `byte` and at which one is, is
/// the first.
proof fn lemma_byte_at_is(succs: Seq<(u32, u8)>, byte: u8, j: int)
    requires
        0 <= j <= succs.len(),
        j < succs.len() ==> succs[j].1 == byte,
        forall|l: int| 0 <= l < j ==> succs[l].1 != byte,
    ensures
        byte_at(succs, byte) == j,
{
    lemma_byte_at(succs, byte);
    let k = byte_at(succs, byte);
    if k < j {
        assert(succs[k].1 == byte);
    } else if k > j {
        assert(succs[j].1 != byte);
    }
}

/// The model and the history after reading `bytes` one by one.
pub open spec fn learned(model: Seq<(Seq<u8>, Seq<(u32, u8)>)>, key: Seq<u8>, bytes: Seq<u8>) -> (Seq<(Seq<u8>, Seq<(u32, u8)>)>, Seq<u8>)
    decreases bytes.len(),
{
    if bytes.len() == 0 {
        (model, key)
    } else {
        learned(counted(model, key, bytes[0]), shift(key, bytes[0]), bytes.drop_first())
    }
}

/// The sum of the counts.
pub open spec fn succ_total(succs: Seq<(u32, u8)>) -> int
    decreases succs.len(),
{
    if succs.len() == 0 {
        0
    } else {
        succ_total(succs.drop_last()) + succs.last().0
    }
}

/// The sum of the counts of all histories: the number of bytes read.
pub open spec fn total(model: Seq<(Seq<u8>, Seq<(u32, u8)>)>) -> int
    decreases model.len(),
{
    if model.len() == 0 {
        0
    } else {
        total(model.drop_last()) + succ_total(model.last().1)
    }
}

/// Every count leaves room for `n` more, and so would a new one.
pub open spec fn room_for(model: Seq<(Seq<u8>, Seq<(u32, u8)>)>, n: int) -> bool {
    &&& n <= u32::MAX
    &&& forall|i: int, j: int| 0 <= i < model.len() && 0 <= j < model[i].1.len() ==> model[i].1[j].0 + n <= u32::MAX
}

/// Counts bytes after each history of `N` bytes.
pub struct Trainer<N: NGram + Copy> {
    history: N,
    model: Vec<(N, Succs)>,
}

/// The model by the histories' bytes.
pub open spec fn model_view<N: NGram>(model: Seq<(N, Succs)>) -> Seq<(Seq<u8>, Seq<(u32, u8)>)> {
    model.map_values(|e: (N, Succs)| (e.0.key(), e.1@))
}

/// No history has two entries, no byte two counts, and each count is at
/// least one.
pub open spec fn well_kept(model: Seq<(Seq<u8>, Seq<(u32, u8)>)>) -> bool {
    &&& forall|i: int, k: int| 0 <= i < k < model.len() ==> model[i].0 != model[k].0
    &&& forall|i: int, j: int, l: int| 0 <= i < model.len() && 0 <= j < l < model[i].1.len() ==> model[i].1[j].1 != model[i].1[l].1
    &&& forall|i: int, j: int| 0 <= i < model.len() && 0 <= j < model[i].1.len() ==> model[i].1[j].0 >= 1
}

impl<N: NGram + Copy> Trainer<N> {
    /// The counts, by the histories' bytes, in the order the histories came.
    pub closed spec fn counts(&self) -> Seq<(Seq<u8>, Seq<(u32, u8)>)> {
        model_view(self.model@)
    }

    /// The bytes the trainer looks back at.
    pub closed spec fn history_key(&self) -> Seq<u8> {
        self.history.key()
    }

    #[verifier::type_invariant]
    spec fn kept(self) -> bool {
        well_kept(model_view(self.model@))
    }

    /// A trainer that has read nothing: no counts, a history of spaces.
    pub fn new() -> (r: Self)
        ensures
            r.counts() == Seq::<(Seq<u8>, Seq<(u32, u8)>)>::empty(),
            well_kept(r.counts()),
            forall|i: int| 0 <= i < r.history_key().len() ==> #[trigger] r.history_key()[i] == SPACE,
    {
        let r = Trainer { history: N::start(), model: Vec::new() };
        assert(model_view(r.model@) =~= Seq::<(Seq<u8>, Seq<(u32, u8)>)>::empty());
        r
    }

    /// The largest count; 0 when there is none.
    pub fn max_count(&self) -> (r: u32)
        ensures
            forall|i: int, j: int| 0 <= i < self.counts().len() && 0 <= j < self.counts()[i].1.len() ==> self.counts()[i].1[j].0 <= r,
            r == 0 || exists|i: int, j: int|
                0 <= i < self.counts().len() && 0 <= j < self.counts()[i].1.len() && #[trigger] self.counts()[i].1[j].0 == r,
    {
        let mut best: u32 = 0;
        let mut i: usize = 0;
        while i < self.model.len()
            invariant
                i <= self.model@.len(),
                forall|a: int, j: int| 0 <= a < i && 0 <= j < self.model@[a].1@.len() ==> self.model@[a].1@[j].0 <= best,
                best == 0 || exists|a: int, j: int| 0 <= a < self.model@.len() && 0 <= j < self.model@[a].1@.len() && #[trigger] self.model@[a].1@[j].0 == best,
            decreases self.model.len() - i,
        {
            let succs = &self.model[i].1;
            let mut j: usize = 0;
            while j < succs.len()
                invariant
                    i < self.model@.len(),
                    succs@ == self.model@[i as int].1@,
                    j <= succs@.len(),
                    forall|a: int, l: int| 0 <= a < i && 0 <= l < self.model@[a].1@.len() ==> self.model@[a].1@[l].0 <= best,
                    forall|l: int| 0 <= l < j ==> succs@[l].0 <= best,
                    best == 0 || exists|a: int, l: int| 0 <= a < self.model@.len() && 0 <= l < self.model@[a].1@.len() && #[trigger] self.model@[a].1@[l].0 == best,
                decreases succs.len() - j,
            {
                if succs[j].0 > best {
                    best = succs[j].0;
                    proof {
                        assert(self.model@[i as int].1@[j as int].0 == best);
                    }
                }
                j += 1;
            }
            i += 1;
        }
        proof {
            assert forall|a: int, j: int| 0 <= a < self.counts().len() && 0 <= j < self.counts()[a].1.len() implies self.counts()[a].1[j].0 <= best by {
                assert(self.counts()[a].1 == self.model@[a].1@);
            }
            if best != 0 {
                let (a, l) = choose|a: int, l: int| 0 <= a < self.model@.len() && 0 <= l < self.model@[a].1@.len() && #[trigger] self.model@[a].1@[l].0 == best;
                assert(self.counts()[a].1 == self.model@[a].1@);
                assert(self.counts()[a].1[l].0 == best);
            }
        }
        best
    }

    /// Counts `byte` after the current history, then moves the history on.
    fn learn(&mut self, byte: u8)
        requires
            room_for(old(self).counts(), 1),
        ensures
            final(self).counts() == counted(old(self).counts(), old(self).history_key(), byte),
            final(self).history_key() == shift(old(self).history_key(), byte),
    {
        proof {
            use_type_invariant(&*self);
        }
        let ghost m0 = model_view(self.model@);
        let ghost key = self.history.key();
        let mut model: Vec<(N, Succs)> = Vec::new();
        proof {
            assert(model_view(model@) =~= Seq::<(Seq<u8>, Seq<(u32, u8)>)>::empty());
        }
        std::mem::swap(&mut model, &mut self.model);
        let i = find_history(&model, &self.history);
        proof {
            lemma_key_at(m0, key);
        }
        if i < model.len() {
            let ghost s0 = model@[i as int].1@;
            proof {
                assert(m0[i as int] == (key, s0));
            }
            let mut entry = model.remove(i);
            let j = find_byte(&entry.1, byte);
            proof {
                assert(entry.1@ == s0);
                lemma_byte_at(s0, byte);
            }
            if j < entry.1.len() {
                proof {
                    assert(m0[i as int].1[j as int].0 + 1 <= u32::MAX);
                }
                let c = entry.1[j].0;
                entry.1.set(j, (c + 1, byte));
            } else {
                entry.1.push((1, byte));
            }
            proof {
                assert(entry.1@ =~= bump(s0, byte));
            }
            model.insert(i, entry);
            proof {
                assert(model_view(model@) =~= counted(m0, key, byte));
            }
        } else {
            let mut succs: Succs = Vec::new();
            succs.push((1, byte));
            let h = self.history;
            model.push((h, succs));
            proof {
                assert(succs@ =~= seq![(1u32, byte)]);
                assert(model_view(model@) =~= counted(m0, key, byte));
            }
        }
        proof {
            lemma_counted_kept(m0, key, byte);
        }
        self.model = model;
        let mut h = self.history;
        h.update(byte);
        self.history = h;
    }
}

impl<N: NGram + Copy> Trainer<N> {
    /// Counts the bytes of `word` and then a space, each after the history
    /// before it.
    pub fn learn_word(&mut self, word: &str)
        requires
            room_for(old(self).counts(), word.spec_bytes().len() + 1int),
        ensures
            (final(self).counts(), final(self).history_key()) == learned(
                old(self).counts(),
                old(self).history_key(),
                word.spec_bytes().push(SPACE),
            ),
            total(final(self).counts()) == total(old(self).counts()) + word.spec_bytes().len() + 1,
            well_kept(final(self).counts()),
    {
        let bytes = word.as_bytes();
        let ghost all = bytes@.push(SPACE);
        let ghost goal = learned(self.counts(), self.history_key(), all);
        let ghost total0 = total(self.counts());
        assert(all.subrange(0, all.len() as int) =~= all);
        let mut i: usize = 0;
        while i < bytes.len()
            invariant
                i <= bytes@.len(),
                all == bytes@.push(SPACE),
                room_for(self.counts(), bytes@.len() - i + 1),
                goal == learned(self.counts(), self.history_key(), all.subrange(i as int, all.len() as int)),
                total(self.counts()) == total0 + i,
            decreases bytes.len() - i,
        {
            let ghost before = (self.counts(), self.history_key());
            proof {
                let rest = all.subrange(i as int, all.len() as int);
                assert(rest[0] == bytes@[i as int]);
                assert(rest.drop_first() =~= all.subrange(i + 1, all.len() as int));
                lemma_counted_room(before.0, before.1, bytes@[i as int], bytes@.len() - i + 1);
                lemma_counted_total(before.0, before.1, bytes@[i as int]);
            }
            self.learn(bytes[i]);
            i += 1;
        }
        proof {
            let rest = all.subrange(i as int, all.len() as int);
            assert(rest[0] == SPACE);
            assert(rest.drop_first() =~= Seq::<u8>::empty());
            lemma_counted_room(self.counts(), self.history_key(), SPACE, 1);
            lemma_counted_total(self.counts(), self.history_key(), SPACE);
        }
        self.learn(SPACE);
        proof {
            reveal_with_fuel(learned, 2);
            use_type_invariant(&*self);
        }
    }

    /// Each history with its counts and their sum, in the order the
    /// histories came.
    pub fn into_model(self) -> (r: Vec<(N, u32, Succs)>)
        requires
            forall|i: int| 0 <= i < self.counts().len() ==> succ_total(#[trigger] self.counts()[i].1) <= u32::MAX,
        ensures
            r@.len() == self.counts().len(),
            forall|i: int| 0 <= i < r@.len() ==> {
                &&& (#[trigger] r@[i]).0.key() == self.counts()[i].0
                &&& r@[i].1 == succ_total(self.counts()[i].1)
                &&& r@[i].2@ == self.counts()[i].1
            },
    {
        let ghost c = self.counts();
        let mut model = self.model;
        let mut reversed: Vec<(N, u32, Succs)> = Vec::new();
        while model.len() > 0
            invariant
                model_view(model@) == c.subrange(0, model@.len() as int),
                model@.len() + reversed@.len() == c.len(),
                forall|i: int| 0 <= i < c.len() ==> succ_total(#[trigger] c[i].1) <= u32::MAX,
                forall|k: int| 0 <= k < reversed@.len() ==> {
                    let i = c.len() - 1 - k;
                    &&& (#[trigger] reversed@[k]).0.key() == c[i].0
                    &&& reversed@[k].1 == succ_total(c[i].1)
                    &&& reversed@[k].2@ == c[i].1
                },
            decreases model@.len(),
        {
            let ghost n = model@.len();
            let ghost before = model@;
            let (h, succs) = model.pop().unwrap();
            proof {
                assert(before[n - 1] == (h, succs));
                assert(model_view(before)[n - 1] == c.subrange(0, n as int)[n - 1]);
                assert(model_view(model@) =~= c.subrange(0, n - 1));
                assert(c[n - 1] == (h.key(), succs@));
                assert(succ_total(c[n - 1].1) <= u32::MAX);
            }
            let sum = sum_counts(&succs);
            reversed.push((h, sum, succs));
        }
        let mut r: Vec<(N, u32, Succs)> = Vec::new();
        while reversed.len() > 0
            invariant
                r@.len() + reversed@.len() == c.len(),
                forall|k: int| 0 <= k < reversed@.len() ==> {
                    let i = c.len() - 1 - k;
                    &&& (#[trigger] reversed@[k]).0.key() == c[i].0
                    &&& reversed@[k].1 == succ_total(c[i].1)
                    &&& reversed@[k].2@ == c[i].1
                },
                forall|i: int| 0 <= i < r@.len() ==> {
                    &&& (#[trigger] r@[i]).0.key() == c[i].0
                    &&& r@[i].1 == succ_total(c[i].1)
                    &&& r@[i].2@ == c[i].1
                },
            decreases reversed@.len(),
        {
            let ghost k = reversed@.len() - 1;
            let e = reversed.pop().unwrap();
            r.push(e);
        }
        r
    }
}

/// The sum of the counts.
fn sum_counts(succs: &Succs) -> (r: u32)
    requires
        succ_total(succs@) <= u32::MAX,
    ensures
        r == succ_total(succs@),
{
    let mut sum: u32 = 0;
    let mut j: usize = 0;
    while j < succs.len()
        invariant
            j <= succs@.len(),
            succ_total(succs@) <= u32::MAX,
            sum == succ_total(succs@.subrange(0, j as int)),
        decreases succs.len() - j,
    {
        proof {
            assert(succs@.subrange(0, j + 1).drop_last() =~= succs@.subrange(0, j as int));
            lemma_succ_total_prefix(succs@, j + 1);
        }
        sum = sum + succs[j].0;
        j += 1;
    }
    proof {
        assert(succs@.subrange(0, j as int) =~= succs@);
    }
    sum
}

/// A prefix sums to no more than the whole.
proof fn lemma_succ_total_prefix(s: Seq<(u32, u8)>, n: int)
    requires
        0 <= n <= s.len(),
    ensures
        succ_total(s.subrange(0, n)) <= succ_total(s),
        succ_total(s.subrange(0, n)) >= 0,
    decreases s.len(),
{
    if n == s.len() {
        assert(s.subrange(0, n) =~= s);
        lemma_succ_total_nonneg(s);
    } else {
        assert(s.drop_last().subrange(0, n) =~= s.subrange(0, n));
        lemma_succ_total_prefix(s.drop_last(), n);
    }
}

proof fn lemma_succ_total_nonneg(s: Seq<(u32, u8)>)
    ensures
        succ_total(s) >= 0,
    decreases s.len(),
{
    if s.len() > 0 {
        lemma_succ_total_nonneg(s.drop_last());
    }
}

/// Changing one count changes the sum by the difference.
proof fn lemma_succ_total_update(s: Seq<(u32, u8)>, j: int, x: (u32, u8))
    requires
        0 <= j < s.len(),
    ensures
        succ_total(s.update(j, x)) == succ_total(s) - s[j].0 + x.0,
    decreases s.len(),
{
    let t = s.update(j, x);
    if j < s.len() - 1 {
        assert(t.drop_last() =~= s.drop_last().update(j, x));
        lemma_succ_total_update(s.drop_last(), j, x);
    } else {
        assert(t.drop_last() =~= s.drop_last());
    }
}

/// Changing one entry changes the total by the difference of their sums.
proof fn lemma_total_update(m: Seq<(Seq<u8>, Seq<(u32, u8)>)>, i: int, x: (Seq<u8>, Seq<(u32, u8)>))
    requires
        0 <= i < m.len(),
    ensures
        total(m.update(i, x)) == total(m) - succ_total(m[i].1) + succ_total(x.1),
    decreases m.len(),
{
    let t = m.update(i, x);
    if i < m.len() - 1 {
        assert(t.drop_last() =~= m.drop_last().update(i, x));
        lemma_total_update(m.drop_last(), i, x);
    } else {
        assert(t.drop_last() =~= m.drop_last());
    }
}

/// Counting one byte adds one to the total.
proof fn lemma_counted_total(m: Seq<(Seq<u8>, Seq<(u32, u8)>)>, key: Seq<u8>, byte: u8)
    requires
        room_for(m, 1),
    ensures
        total(counted(m, key, byte)) == total(m) + 1,
{
    lemma_key_at(m, key);
    let i = key_at(m, key);
    if i < m.len() {
        let s = m[i].1;
        let t = bump(s, byte);
        lemma_total_update(m, i, (key, t));
        lemma_byte_at(s, byte);
        let j = byte_at(s, byte);
        if j < s.len() {
            assert(s[j].0 + 1 <= u32::MAX);
            lemma_succ_total_update(s, j, ((s[j].0 + 1) as u32, byte));
        } else {
            assert(s.push((1u32, byte)).drop_last() =~= s);
        }
        assert(succ_total(t) == succ_total(s) + 1);
    } else {
        let m1 = m.push((key, seq![(1u32, byte)]));
        assert(m1.drop_last() =~= m);
        assert(seq![(1u32, byte)].drop_last() =~= Seq::<(u32, u8)>::empty());
        assert(succ_total(Seq::<(u32, u8)>::empty()) == 0);
        assert(succ_total(seq![(1u32, byte)]) == 1);
    }
}

/// Counting one byte uses up one of the room left.
proof fn lemma_counted_room(m: Seq<(Seq<u8>, Seq<(u32, u8)>)>, key: Seq<u8>, byte: u8, n: int)
    requires
        room_for(m, n),
        n >= 1,
    ensures
        room_for(counted(m, key, byte), n - 1),
{
    let c = counted(m, key, byte);
    lemma_key_at(m, key);
    let i = key_at(m, key);
    if i < m.len() {
        let s = m[i].1;
        let t = bump(s, byte);
        lemma_byte_at(s, byte);
        let l = byte_at(s, byte);
        assert forall|a: int, j: int| 0 <= a < c.len() && 0 <= j < c[a].1.len() implies c[a].1[j].0 + (n - 1) <= u32::MAX by {
            if a == i {
                assert(c[a].1 == t);
                if l < s.len() {
                    assert(s[l].0 + n <= u32::MAX);
                    assert(s[j].0 + n <= u32::MAX);
                } else if j < s.len() {
                    assert(s[j].0 + n <= u32::MAX);
                }
            } else {
                assert(c[a] == m[a]);
                assert(m[a].1[j].0 + n <= u32::MAX);
            }
        }
    } else {
        assert forall|a: int, j: int| 0 <= a < c.len() && 0 <= j < c[a].1.len() implies c[a].1[j].0 + (n - 1) <= u32::MAX by {
            if a < m.len() {
                assert(c[a] == m[a]);
                assert(m[a].1[j].0 + n <= u32::MAX);
            }
        }
    }
}

/// The first entry for the history `h`, or the number of entries if there
/// is none.
fn find_history<N: NGram>(model: &Vec<(N, Succs)>, h: &N) -> (r: usize)
    ensures
        r == key_at(model_view(model@), h.key()),
{
    let ghost m = model_view(model@);
    let mut i: usize = 0;
    while i < model.len()
        invariant
            i <= model@.len(),
            m == model_view(model@),
            forall|a: int| 0 <= a < i ==> m[a].0 != h.key(),
        decreases model.len() - i,
    {
        if model[i].0.same(h) {
            proof {
                lemma_key_at_is(m, h.key(), i as int);
            }
            return i;
        }
        i += 1;
    }
    proof {
        lemma_key_at_is(m, h.key(), i as int);
    }
    i
}

/// The first count of `byte`, or the number of counts if there is none.
fn find_byte(succs: &Succs, byte: u8) -> (r: usize)
    ensures
        r == byte_at(succs@, byte),
{
    let mut j: usize = 0;
    while j < succs.len()
        invariant
            j <= succs@.len(),
            forall|l: int| 0 <= l < j ==> succs@[l].1 != byte,
        decreases succs.len() - j,
    {
        if succs[j].1 == byte {
            proof {
                lemma_byte_at_is(succs@, byte, j as int);
            }
            return j;
        }
        j += 1;
    }
    proof {
        lemma_byte_at_is(succs@, byte, j as int);
    }
    j
}

/// Counting a byte keeps the model well kept.
proof fn lemma_counted_kept(model: Seq<(Seq<u8>, Seq<(u32, u8)>)>, key: Seq<u8>, byte: u8)
    requires
        well_kept(model),
        room_for(model, 1),
    ensures
        well_kept(counted(model, key, byte)),
{
    let m = counted(model, key, byte);
    lemma_key_at(model, key);
    let i = key_at(model, key);
    if i < model.len() {
        let s = model[i].1;
        let t = bump(s, byte);
        assert(m[i].1 == t);
        lemma_byte_at(s, byte);
        let j = byte_at(s, byte);
        if j < s.len() {
            assert(t == s.update(j, ((s[j].0 + 1) as u32, byte)));
        } else {
            assert(t == s.push((1u32, byte)));
        }
        assert forall|a: int, k: int| 0 <= a < k < m.len() implies m[a].0 != m[k].0 by {
            assert(model[a].0 != model[k].0);
        }
    } else {
        assert forall|a: int, k: int| 0 <= a < k < m.len() implies m[a].0 != m[k].0 by {
            if k == model.len() {
                assert(model[a].0 != key);
            } else {
                assert(model[a].0 != model[k].0);
            }
        }
    }
}

} // verus!
