//! Utilities for gathering of "statistics"

use vstd::prelude::*;

verus! {

/// Header fields of a RISC-V encapsulation packet
#[derive(Copy, Clone, Debug, PartialEq, Eq, Structural)]
pub enum EncapHeader {
    Null(EncapNullHeader),
    Normal(EncapNormalHeader),
}

/// Header fields of a RISC-V null encapsulation structure
#[derive(Copy, Clone, Debug, PartialEq, Eq, Structural, PartialOrd, Ord)]
pub struct EncapNullHeader {
    pub flow: u8,
    pub align: bool,
}

/// Header fields of a RISC-V normal encapsulation structure
#[derive(Copy, Clone, Debug, PartialEq, Eq, Structural, PartialOrd, Ord)]
pub struct EncapNormalHeader {
    pub flow: u8,
    pub src_id: u16,
    pub timestamp: bool,
}

/// Header fields of a SMI packet
#[derive(Copy, Clone, Debug, PartialEq, Eq, Structural, PartialOrd, Ord)]
pub struct SmiHeader {
    pub trace_type: u8,
    pub hart: u64,
    pub time_tag: bool,
}

/// A packet of the other format reached a statistics handler
#[derive(Copy, Clone, Debug, PartialEq, Eq, Structural)]
pub enum HandlerError {
    /// The encap handler met an SMI packet
    UnexpectedSmi,
    /// The SMI handler met an encap packet
    UnexpectedEncap,
}

impl HandlerError {
    /// The message describing this error.
    pub open spec fn spec_message(self) -> Seq<char> {
        match self {
            HandlerError::UnexpectedSmi => "SMI stat handler cannot handle SMI packet"@,
            HandlerError::UnexpectedEncap => "SMI stat handler cannot handle encap packet"@,
        }
    }

    /// Retrieve the message describing this error
    pub fn message(self) -> (r: &'static str)
        ensures
            r@ == self.spec_message(),
    {
        match self {
            HandlerError::UnexpectedSmi => "SMI stat handler cannot handle SMI packet",
            HandlerError::UnexpectedEncap => "SMI stat handler cannot handle encap packet",
        }
    }
}

/// Handler for extracting [`EncapHeader`]s
#[derive(Copy, Clone, Debug, Default)]
pub struct EncapHandler;

impl EncapHandler {
    /// Handle an encap packet, given by its header: the header is the result
    pub fn handle_encap(&mut self, packet: EncapHeader) -> (r: Result<Option<EncapHeader>, HandlerError>)
        ensures
            r == Ok::<Option<EncapHeader>, HandlerError>(Some(packet)),
    {
        Ok(Some(packet))
    }

    /// Handle an SMI packet: always an error
    pub fn handle_smi(&mut self, packet: SmiHeader) -> (r: Result<Option<EncapHeader>, HandlerError>)
        ensures
            r == Err::<Option<EncapHeader>, HandlerError>(HandlerError::UnexpectedSmi),
    {
        Err(HandlerError::UnexpectedSmi)
    }
}

/// Handler for extracting [`SmiHeader`]s
#[derive(Copy, Clone, Debug, Default)]
pub struct SmiHandler;

impl SmiHandler {
    /// Handle an encap packet: always an error
    pub fn handle_encap(&mut self, packet: EncapHeader) -> (r: Result<Option<SmiHeader>, HandlerError>)
        ensures
            r == Err::<Option<SmiHeader>, HandlerError>(HandlerError::UnexpectedEncap),
    {
        Err(HandlerError::UnexpectedEncap)
    }

    /// Handle an SMI packet, given by its header: the header is the result
    pub fn handle_smi(&mut self, packet: SmiHeader) -> (r: Result<Option<SmiHeader>, HandlerError>)
        ensures
            r == Ok::<Option<SmiHeader>, HandlerError>(Some(packet)),
    {
        Ok(Some(packet))
    }
}

/// Lexicographic order on triples of integers.
pub open spec fn key_lt(a: (u64, u64, u64), b: (u64, u64, u64)) -> bool {
    a.0 < b.0 || (a.0 == b.0 && (a.1 < b.1 || (a.1 == b.1 && a.2 < b.2)))
}

/// A value that is ordered by a triple of integers, as its derived order does
pub trait Keyed: Sized + Copy {
    /// The triple ordering this value.
    spec fn spec_key(self) -> (u64, u64, u64);

    /// Values with the same key are the same.
    proof fn lemma_key_injective(a: Self, b: Self)
        ensures
            a.spec_key() == b.spec_key() ==> a == b,
    ;

    /// Compute the key
    fn key(&self) -> (r: (u64, u64, u64))
        ensures
            r == self.spec_key(),
    ;
}

/// `0` for `false`, `1` for `true`.
pub open spec fn bit(b: bool) -> u64 {
    if b {
        1
    } else {
        0
    }
}

impl Keyed for EncapNullHeader {
    open spec fn spec_key(self) -> (u64, u64, u64) {
        (self.flow as u64, bit(self.align), 0)
    }

    proof fn lemma_key_injective(a: Self, b: Self) {
    }

    fn key(&self) -> (r: (u64, u64, u64)) {
        (self.flow as u64, if self.align { 1 } else { 0 }, 0)
    }
}

impl Keyed for EncapNormalHeader {
    open spec fn spec_key(self) -> (u64, u64, u64) {
        (self.flow as u64, self.src_id as u64, bit(self.timestamp))
    }

    proof fn lemma_key_injective(a: Self, b: Self) {
    }

    fn key(&self) -> (r: (u64, u64, u64)) {
        (self.flow as u64, self.src_id as u64, if self.timestamp { 1 } else { 0 })
    }
}

impl Keyed for SmiHeader {
    open spec fn spec_key(self) -> (u64, u64, u64) {
        (self.trace_type as u64, self.hart, bit(self.time_tag))
    }

    proof fn lemma_key_injective(a: Self, b: Self) {
    }

    fn key(&self) -> (r: (u64, u64, u64)) {
        (self.trace_type as u64, self.hart, if self.time_tag { 1 } else { 0 })
    }
}

impl Keyed for u64 {
    open spec fn spec_key(self) -> (u64, u64, u64) {
        (self, 0, 0)
    }

    proof fn lemma_key_injective(a: Self, b: Self) {
    }

    fn key(&self) -> (r: (u64, u64, u64)) {
        (*self, 0, 0)
    }
}


/// Total count recorded for `k` in `s`.
pub open spec fn count_in<K>(s: Seq<(K, u64)>, k: K) -> nat
    decreases s.len(),
{
    if s.len() == 0 {
        0
    } else {
        count_in(s.drop_last(), k) + if s.last().0 == k {
            s.last().1 as nat
        } else {
            0
        }
    }
}

/// Counts add up over concatenation.
pub proof fn lemma_count_concat<K>(a: Seq<(K, u64)>, b: Seq<(K, u64)>, k: K)
    ensures
        count_in(a + b, k) == count_in(a, k) + count_in(b, k),
    decreases b.len(),
{
    if b.len() > 0 {
        assert((a + b).drop_last() =~= a + b.drop_last());
        lemma_count_concat(a, b.drop_last(), k);
    } else {
        assert(a + b =~= a);
    }
}

/// Count of a single entry.
pub proof fn lemma_count_single<K>(e: (K, u64), k: K)
    ensures
        count_in(seq![e], k) == if e.0 == k {
            e.1 as nat
        } else {
            0
        },
{
    assert(seq![e].drop_last() =~= Seq::<(K, u64)>::empty());
    assert(count_in(Seq::<(K, u64)>::empty(), k) == 0);
    assert(seq![e].last() == e);
}

/// A count of occurrences for each distinct value, in ascending order
#[derive(Debug)]
pub struct Tally<K> {
    entries: Vec<(K, u64)>,
}

impl<K: Keyed> Tally<K> {
    /// The entries: each distinct value with its count.
    pub closed spec fn spec_entries(self) -> Seq<(K, u64)> {
        self.entries@
    }

    /// The number of times `k` was counted.
    pub open spec fn count(self, k: K) -> nat {
        count_in(self.spec_entries(), k)
    }

    /// Whether `k` has an entry.
    pub open spec fn has(self, k: K) -> bool {
        exists|j: int| 0 <= j < self.spec_entries().len() && (#[trigger] self.spec_entries()[j]).0 == k
    }

    /// Entries ascend strictly by key.
    pub open spec fn wf(self) -> bool {
        forall|i: int, j: int|
            0 <= i < j < self.spec_entries().len() ==> key_lt(
                #[trigger] self.spec_entries()[i].0.spec_key(),
                #[trigger] self.spec_entries()[j].0.spec_key(),
            )
    }

    /// Create an empty tally
    pub fn new() -> (r: Tally<K>)
        ensures
            r.wf(),
            r.spec_entries() == Seq::<(K, u64)>::empty(),
            forall|k: K| r.count(k) == 0,
            forall|k: K| !r.has(k),
    {
        Tally { entries: Vec::new() }
    }

    /// Whether nothing was counted
    pub fn is_empty(&self) -> (r: bool)
        ensures
            r == (self.spec_entries().len() == 0),
    {
        self.entries.len() == 0
    }

    /// Count one more occurrence of `k`
    pub fn add(&mut self, k: K)
        requires
            old(self).wf(),
            old(self).count(k) < u64::MAX,
        ensures
            final(self).wf(),
            counted_once(*old(self), *final(self), k),
            final(self).has(k),
            forall|o: K| o != k ==> final(self).has(o) == old(self).has(o),
    {
        self.add_amount(k, 1);
    }

    /// Count `amount` more occurrences of `k`, up to the largest `u64`
    pub fn add_amount(&mut self, k: K, amount: u64)
        requires
            old(self).wf(),
        ensures
            final(self).wf(),
            old(self).count(k) <= u64::MAX,
            final(self).count(k) == crate::profile::sat_add(old(self).count(k) as u64, amount),
            forall|o: K| o != k ==> final(self).count(o) == old(self).count(o),
            final(self).has(k),
            forall|o: K| o != k ==> final(self).has(o) == old(self).has(o),
    {
        let key = k.key();
        let mut i: usize = 0;
        while i < self.entries.len()
            invariant
                i <= self.entries@.len(),
                self.entries@ == old(self).entries@,
                forall|j: int| 0 <= j < i ==> key_lt(#[trigger] self.entries@[j].0.spec_key(), key),
            ensures
                i <= self.entries@.len(),
                self.entries@ == old(self).entries@,
                forall|j: int| 0 <= j < i ==> key_lt(#[trigger] self.entries@[j].0.spec_key(), key),
                i < self.entries@.len() ==> !key_lt(self.entries@[i as int].0.spec_key(), key),
            decreases self.entries.len() - i,
        {
            let ek = self.entries[i].0.key();
            if !(ek.0 < key.0 || (ek.0 == key.0 && (ek.1 < key.1 || (ek.1 == key.1 && ek.2 < key.2)))) {
                break;
            }
            i = i + 1;
        }
        let ghost s = self.entries@;
        let found = if i < self.entries.len() {
            let ek = self.entries[i].0.key();
            ek.0 == key.0 && ek.1 == key.1 && ek.2 == key.2
        } else {
            false
        };
        proof {
            if i < s.len() {
                if !found {
                    assert(key_lt(key, s[i as int].0.spec_key()));
                }
                assert forall|j: int| i < j < s.len() implies key_lt(
                    s[i as int].0.spec_key(),
                    #[trigger] s[j].0.spec_key(),
                ) by {
                    assert(key_lt(old(self).spec_entries()[i as int].0.spec_key(), old(self).spec_entries()[j].0.spec_key()));
                }
            }
        }
        if found {
            let (e, c) = self.entries[i];
            proof {
                K::lemma_key_injective(e, k);
                assert(e == k);
                lemma_count_concat(s.take(i as int), s.skip(i as int), k);
                assert(s =~= s.take(i as int) + s.skip(i as int));
                assert forall|j: int| 0 <= j < s.skip(i as int + 1).len() implies key_lt(
                    k.spec_key(),
                    #[trigger] s.skip(i as int + 1)[j].0.spec_key(),
                ) by {
                    assert(s.skip(i as int + 1)[j] == s[i + 1 + j]);
                }
                self.lemma_count_absent(s.skip(i as int + 1), k);
                assert(s.skip(i as int) =~= seq![s[i as int]] + s.skip(i as int + 1));
                lemma_count_concat(seq![s[i as int]], s.skip(i as int + 1), k);
                lemma_count_single(s[i as int], k);
                self.lemma_count_absent_prefix(s.take(i as int), k);
            }
            self.entries.set(i, (e, c.saturating_add(amount)));
            proof {
                let t = self.entries@;
                assert(self.spec_entries()[i as int].0 == k);
                assert forall|o: K| o != k implies self.has(o) == old(self).has(o) by {
                    if self.has(o) {
                        let j = choose|j: int| 0 <= j < self.spec_entries().len() && (#[trigger] self.spec_entries()[j]).0 == o;
                        assert(old(self).spec_entries()[j].0 == o);
                    }
                    if old(self).has(o) {
                        let j = choose|j: int| 0 <= j < old(self).spec_entries().len() && (#[trigger] old(self).spec_entries()[j]).0 == o;
                        assert(self.spec_entries()[j].0 == o);
                    }
                }
                assert(t =~= s.take(i as int) + (seq![(e, crate::profile::sat_add(c, amount))] + s.skip(i as int + 1)));
                lemma_count_concat(s.take(i as int), seq![(e, crate::profile::sat_add(c, amount))] + s.skip(i as int + 1), k);
                lemma_count_concat(seq![(e, crate::profile::sat_add(c, amount))], s.skip(i as int + 1), k);
                lemma_count_single((e, crate::profile::sat_add(c, amount)), k);
                assert forall|o: K| o != k implies count_in(t, o) == count_in(s, o) by {
                    lemma_count_concat(s.take(i as int), s.skip(i as int), o);
                    lemma_count_concat(seq![s[i as int]], s.skip(i as int + 1), o);
                    lemma_count_single(s[i as int], o);
                    lemma_count_concat(s.take(i as int), seq![(e, crate::profile::sat_add(c, amount))] + s.skip(i as int + 1), o);
                    lemma_count_concat(seq![(e, crate::profile::sat_add(c, amount))], s.skip(i as int + 1), o);
                    lemma_count_single((e, crate::profile::sat_add(c, amount)), o);
                }
                assert forall|a: int, b: int| 0 <= a < b < t.len() implies key_lt(
                    #[trigger] t[a].0.spec_key(),
                    #[trigger] t[b].0.spec_key(),
                ) by {
                    assert(t[a].0 == s[a].0);
                    assert(t[b].0 == s[b].0);
                    assert(key_lt(
                        old(self).spec_entries()[a].0.spec_key(),
                        old(self).spec_entries()[b].0.spec_key(),
                    ));
                }
            }
        } else {
            proof {
                assert(s =~= s.take(i as int) + s.skip(i as int));
                lemma_count_concat(s.take(i as int), s.skip(i as int), k);
                self.lemma_count_absent_prefix(s.take(i as int), k);
                assert forall|j: int| 0 <= j < s.skip(i as int).len() implies key_lt(
                    k.spec_key(),
                    #[trigger] s.skip(i as int)[j].0.spec_key(),
                ) by {
                    assert(s.skip(i as int)[j] == s[i + j]);
                }
                self.lemma_count_absent(s.skip(i as int), k);
            }
            self.entries.insert(i, (k, amount));
            proof {
                let t = self.entries@;
                assert(self.spec_entries()[i as int].0 == k);
                assert forall|o: K| o != k implies self.has(o) == old(self).has(o) by {
                    if self.has(o) {
                        let j = choose|j: int| 0 <= j < self.spec_entries().len() && (#[trigger] self.spec_entries()[j]).0 == o;
                        if j < i {
                            assert(old(self).spec_entries()[j].0 == o);
                        } else {
                            assert(old(self).spec_entries()[j - 1].0 == o);
                        }
                    }
                    if old(self).has(o) {
                        let j = choose|j: int| 0 <= j < old(self).spec_entries().len() && (#[trigger] old(self).spec_entries()[j]).0 == o;
                        if j < i {
                            assert(self.spec_entries()[j].0 == o);
                        } else {
                            assert(self.spec_entries()[j + 1].0 == o);
                        }
                    }
                }
                assert(t =~= s.take(i as int) + (seq![(k, amount)] + s.skip(i as int)));
                lemma_count_concat(s.take(i as int), seq![(k, amount)] + s.skip(i as int), k);
                lemma_count_concat(seq![(k, amount)], s.skip(i as int), k);
                lemma_count_single((k, amount), k);
                assert forall|o: K| o != k implies count_in(t, o) == count_in(s, o) by {
                    lemma_count_concat(s.take(i as int), s.skip(i as int), o);
                    lemma_count_concat(s.take(i as int), seq![(k, amount)] + s.skip(i as int), o);
                    lemma_count_concat(seq![(k, amount)], s.skip(i as int), o);
                    lemma_count_single((k, amount), o);
                }
                assert forall|a: int, b: int| 0 <= a < b < t.len() implies key_lt(
                    #[trigger] t[a].0.spec_key(),
                    #[trigger] t[b].0.spec_key(),
                ) by {
                    let ss = old(self).spec_entries();
                    if b < i {
                        assert(t[a] == s[a]);
                        assert(t[b] == s[b]);
                        assert(key_lt(ss[a].0.spec_key(), ss[b].0.spec_key()));
                    } else if a < i && b == i {
                        assert(t[a] == s[a]);
                        assert(key_lt(s[a].0.spec_key(), key));
                    } else if a < i {
                        assert(t[a] == s[a]);
                        assert(t[b] == s[b - 1]);
                        assert(key_lt(ss[a].0.spec_key(), ss[b - 1].0.spec_key()));
                    } else if a == i {
                        assert(t[b] == s[b - 1]);
                        if b - 1 > i {
                            assert(key_lt(s[i as int].0.spec_key(), s[b - 1].0.spec_key()));
                        }
                    } else {
                        assert(t[a] == s[a - 1]);
                        assert(t[b] == s[b - 1]);
                        assert(key_lt(ss[a - 1].0.spec_key(), ss[b - 1].0.spec_key()));
                    }
                }
            }
        }
    }

    /// A count never exceeds the largest `u64`.
    pub proof fn lemma_count_bounded(self, k: K)
        requires
            self.wf(),
        ensures
            self.count(k) <= u64::MAX,
    {
        self.lemma_prefix_bounded(self.spec_entries().len(), k);
        assert(self.spec_entries().take(self.spec_entries().len() as int) =~= self.spec_entries());
    }

    /// Prefix form of [`lemma_count_bounded`][Self::lemma_count_bounded].
    proof fn lemma_prefix_bounded(self, n: nat, k: K)
        requires
            self.wf(),
            n <= self.spec_entries().len(),
        ensures
            count_in(self.spec_entries().take(n as int), k) <= u64::MAX,
        decreases n,
    {
        let s = self.spec_entries();
        if n > 0 {
            let t = s.take(n as int);
            assert(t.drop_last() =~= s.take(n - 1));
            if t.last().0 == k {
                assert forall|j: int| 0 <= j < t.drop_last().len() implies key_lt(
                    #[trigger] t.drop_last()[j].0.spec_key(),
                    k.spec_key(),
                ) by {
                    assert(t.drop_last()[j] == s[j]);
                    assert(key_lt(s[j].0.spec_key(), s[n - 1].0.spec_key()));
                }
                self.lemma_count_absent_prefix(t.drop_last(), k);
            } else {
                self.lemma_prefix_bounded((n - 1) as nat, k);
            }
        } else {
            assert(s.take(0) =~= Seq::<(K, u64)>::empty());
        }
    }

    /// Entries whose keys are all below `k` do not count `k`.
    proof fn lemma_count_absent_prefix(self, p: Seq<(K, u64)>, k: K)
        requires
            forall|j: int| 0 <= j < p.len() ==> key_lt(#[trigger] p[j].0.spec_key(), k.spec_key()),
        ensures
            count_in(p, k) == 0,
        decreases p.len(),
    {
        if p.len() > 0 {
            self.lemma_count_absent_prefix(p.drop_last(), k);
            assert(key_lt(p[p.len() - 1].0.spec_key(), k.spec_key()));
        }
    }

    /// Entries whose keys are all above the key of `k` do not count `k`.
    proof fn lemma_count_absent(self, p: Seq<(K, u64)>, k: K)
        requires
            forall|j: int| 0 <= j < p.len() ==> key_lt(k.spec_key(), #[trigger] p[j].0.spec_key()),
        ensures
            count_in(p, k) == 0,
        decreases p.len(),
    {
        if p.len() > 0 {
            self.lemma_count_absent(p.drop_last(), k);
            assert(key_lt(k.spec_key(), p[p.len() - 1].0.spec_key()));
        }
    }

    /// Retrieve the number of times `k` was counted
    pub fn get(&self, k: &K) -> (r: u64)
        requires
            self.wf(),
        ensures
            r == self.count(*k),
    {
        let key = k.key();
        let ghost s = self.entries@;
        let mut i: usize = 0;
        while i < self.entries.len()
            invariant
                i <= s.len(),
                s == self.entries@,
                self.wf(),
                key == k.spec_key(),
                count_in(s.take(i as int), *k) == 0,
            decreases self.entries.len() - i,
        {
            let (e, c) = self.entries[i];
            let ek = e.key();
            proof {
                let t = s.take(i + 1);
                assert(t.drop_last() =~= s.take(i as int));
                assert(t.last() == s[i as int]);
            }
            if ek.0 == key.0 && ek.1 == key.1 && ek.2 == key.2 {
                proof {
                    K::lemma_key_injective(e, *k);
                    assert(s =~= s.take(i as int) + (seq![s[i as int]] + s.skip(i as int + 1)));
                    lemma_count_concat(s.take(i as int), seq![s[i as int]] + s.skip(i as int + 1), *k);
                    lemma_count_concat(seq![s[i as int]], s.skip(i as int + 1), *k);
                    lemma_count_single(s[i as int], *k);
                    assert forall|j: int| 0 <= j < s.skip(i as int + 1).len() implies key_lt(
                        k.spec_key(),
                        #[trigger] s.skip(i as int + 1)[j].0.spec_key(),
                    ) by {
                        assert(s.skip(i as int + 1)[j] == s[i + 1 + j]);
                        assert(key_lt(
                            self.spec_entries()[i as int].0.spec_key(),
                            self.spec_entries()[i + 1 + j].0.spec_key(),
                        ));
                    }
                    self.lemma_count_absent(s.skip(i as int + 1), *k);
                }
                return c;
            }
            proof {
                if s[i as int].0 == *k {
                    assert(s[i as int].0.spec_key() == k.spec_key());
                }
                lemma_count_concat(s.take(i as int), seq![s[i as int]], *k);
                lemma_count_single(s[i as int], *k);
                assert(s.take(i + 1) =~= s.take(i as int) + seq![s[i as int]]);
            }
            i = i + 1;
        }
        assert(s.take(s.len() as int) =~= s);
        0
    }

    /// The distinct values counted with their counts, in ascending order
    pub fn entries(&self) -> (r: &[(K, u64)])
        ensures
            r@ == self.spec_entries(),
    {
        self.entries.as_slice()
    }
}

/// Keys ascend strictly along `s`.
pub open spec fn keys_ascend<K: Keyed>(s: Seq<(K, u64)>) -> bool {
    forall|i: int, j: int|
        0 <= i < j < s.len() ==> key_lt(#[trigger] s[i].0.spec_key(), #[trigger] s[j].0.spec_key())
}

/// `k` has an entry in `s`.
pub open spec fn has_entry<K>(s: Seq<(K, u64)>, k: K) -> bool {
    exists|j: int| 0 <= j < s.len() && (#[trigger] s[j]).0 == k
}

/// Entries whose keys are all below that of `k` do not count `k`.
proof fn lemma_count_below<K: Keyed>(p: Seq<(K, u64)>, k: K)
    requires
        forall|j: int| 0 <= j < p.len() ==> key_lt(#[trigger] p[j].0.spec_key(), k.spec_key()),
    ensures
        count_in(p, k) == 0,
    decreases p.len(),
{
    if p.len() > 0 {
        lemma_count_below(p.drop_last(), k);
        assert(key_lt(p[p.len() - 1].0.spec_key(), k.spec_key()));
    }
}

/// Entries with strictly ascending keys are determined by the values that
/// have an entry and their counts.
pub proof fn lemma_entries_unique<K: Keyed>(s: Seq<(K, u64)>, t: Seq<(K, u64)>)
    requires
        keys_ascend(s),
        keys_ascend(t),
        forall|k: K| has_entry(s, k) == has_entry(t, k),
        forall|k: K| count_in(s, k) == count_in(t, k),
    ensures
        s == t,
    decreases s.len() + t.len(),
{
    if s.len() == 0 && t.len() == 0 {
        assert(s =~= t);
    } else if s.len() == 0 {
        assert(has_entry(t, t[0].0));
    } else if t.len() == 0 {
        assert(has_entry(s, s[0].0));
    } else {
        let n = s.len() - 1;
        let m = t.len() - 1;
        let a = s[n].0;
        let b = t[m].0;
        assert(has_entry(s, a));
        assert(has_entry(t, b));
        let j = choose|j: int| 0 <= j < t.len() && (#[trigger] t[j]).0 == a;
        let i = choose|i: int| 0 <= i < s.len() && (#[trigger] s[i]).0 == b;
        if j < m {
            assert(key_lt(t[j].0.spec_key(), t[m].0.spec_key()));
        }
        if i < n {
            assert(key_lt(s[i].0.spec_key(), s[n].0.spec_key()));
        }
        K::lemma_key_injective(a, b);
        assert(a == b);
        let s0 = s.drop_last();
        let t0 = t.drop_last();
        assert forall|q: int| 0 <= q < s0.len() implies key_lt(#[trigger] s0[q].0.spec_key(), a.spec_key()) by {
            assert(key_lt(s[q].0.spec_key(), s[n].0.spec_key()));
        }
        assert forall|q: int| 0 <= q < t0.len() implies key_lt(#[trigger] t0[q].0.spec_key(), a.spec_key()) by {
            assert(key_lt(t[q].0.spec_key(), t[m].0.spec_key()));
        }
        lemma_count_below(s0, a);
        lemma_count_below(t0, a);
        assert(count_in(s, a) == count_in(t, a));
        assert(s.drop_last() == s0 && s.last() == s[n]);
        assert(t.drop_last() == t0 && t.last() == t[m]);
        assert(count_in(s, a) == count_in(s0, a) + s[n].1);
        assert(count_in(t, a) == count_in(t0, a) + t[m].1);
        assert(s[n].1 == t[m].1);
        assert forall|k: K| has_entry(s0, k) == has_entry(t0, k) by {
            if k == a {
                if has_entry(s0, k) {
                    let q = choose|q: int| 0 <= q < s0.len() && (#[trigger] s0[q]).0 == k;
                    assert(key_lt(s0[q].0.spec_key(), a.spec_key()));
                }
                if has_entry(t0, k) {
                    let q = choose|q: int| 0 <= q < t0.len() && (#[trigger] t0[q]).0 == k;
                    assert(key_lt(t0[q].0.spec_key(), a.spec_key()));
                }
            } else {
                if has_entry(s0, k) {
                    let q = choose|q: int| 0 <= q < s0.len() && (#[trigger] s0[q]).0 == k;
                    assert(s[q].0 == k);
                }
                if has_entry(s, k) {
                    let q = choose|q: int| 0 <= q < s.len() && (#[trigger] s[q]).0 == k;
                    assert(s0[q].0 == k);
                }
                if has_entry(t0, k) {
                    let q = choose|q: int| 0 <= q < t0.len() && (#[trigger] t0[q]).0 == k;
                    assert(t[q].0 == k);
                }
                if has_entry(t, k) {
                    let q = choose|q: int| 0 <= q < t.len() && (#[trigger] t[q]).0 == k;
                    assert(t0[q].0 == k);
                }
            }
        }
        assert forall|k: K| count_in(s0, k) == count_in(t0, k) by {
            assert(count_in(s, k) == count_in(t, k));
        }
        assert forall|x: int, y: int| 0 <= x < y < s0.len() implies key_lt(
            #[trigger] s0[x].0.spec_key(),
            #[trigger] s0[y].0.spec_key(),
        ) by {
            assert(key_lt(s[x].0.spec_key(), s[y].0.spec_key()));
        }
        assert forall|x: int, y: int| 0 <= x < y < t0.len() implies key_lt(
            #[trigger] t0[x].0.spec_key(),
            #[trigger] t0[y].0.spec_key(),
        ) by {
            assert(key_lt(t[x].0.spec_key(), t[y].0.spec_key()));
        }
        lemma_entries_unique(s0, t0);
        assert(s =~= s0.push(s[n]));
        assert(t =~= t0.push(t[m]));
    }
}

/// `t1` is `t0` with one more occurrence of `k` counted.
pub open spec fn counted_once<K: Keyed>(t0: Tally<K>, t1: Tally<K>, k: K) -> bool {
    &&& t1.count(k) == t0.count(k) + 1
    &&& forall|o: K| o != k ==> #[trigger] t1.count(o) == t0.count(o)
}

/// The number of times `k` occurs in `keys`.
pub open spec fn occurrences<K>(keys: Seq<K>, k: K) -> nat
    decreases keys.len(),
{
    if keys.len() == 0 {
        0
    } else {
        occurrences(keys.drop_last(), k) + if keys.last() == k {
            1nat
        } else {
            0
        }
    }
}

/// Every value added is counted once: after adding `keys` one by one, each
/// value's count has grown by the number of times it occurs in `keys`.
pub proof fn tally_counts_occurrences<K: Keyed>(ts: Seq<Tally<K>>, keys: Seq<K>, k: K)
    requires
        ts.len() == keys.len() + 1,
        forall|i: int| 0 <= i < keys.len() ==> counted_once(ts[i], #[trigger] ts[i + 1], keys[i]),
    ensures
        ts.last().count(k) == ts[0].count(k) + occurrences(keys, k),
    decreases keys.len(),
{
    if keys.len() > 0 {
        let n = keys.len() - 1;
        assert forall|i: int| 0 <= i < keys.drop_last().len() implies counted_once(
            ts.drop_last()[i],
            #[trigger] ts.drop_last()[i + 1],
            keys.drop_last()[i],
        ) by {
            assert(ts.drop_last()[i + 1] == ts[i + 1]);
            assert(counted_once(ts[i], ts[i + 1], keys[i]));
        }
        tally_counts_occurrences(ts.drop_last(), keys.drop_last(), k);
        assert(counted_once(ts[n], ts[n + 1], keys[n]));
        assert(ts.drop_last().last() == ts[n]);
        if keys[n] != k {
            assert(ts[n + 1].count(k) == ts[n].count(k));
        }
    }
}

/// Counts of encapsulation headers, normal and null structures apart
#[derive(Debug)]
pub struct EncapStat {
    /// Counts of normal encapsulation structures
    pub normal: Tally<EncapNormalHeader>,
    /// Counts of null structures
    pub null: Tally<EncapNullHeader>,
}

impl EncapStat {
    /// Both tallies are well-formed.
    pub open spec fn wf(self) -> bool {
        self.normal.wf() && self.null.wf()
    }

    /// Create empty counts
    pub fn new() -> (r: EncapStat)
        ensures
            r.wf(),
            forall|k: EncapNormalHeader| r.normal.count(k) == 0,
            forall|k: EncapNullHeader| r.null.count(k) == 0,
    {
        EncapStat { normal: Tally::new(), null: Tally::new() }
    }

    /// Count one more header
    pub fn add(&mut self, h: EncapHeader)
        requires
            old(self).wf(),
            h matches EncapHeader::Normal(n) ==> old(self).normal.count(n) < u64::MAX,
            h matches EncapHeader::Null(n) ==> old(self).null.count(n) < u64::MAX,
        ensures
            final(self).wf(),
            h matches EncapHeader::Normal(n) ==> {
                &&& final(self).normal.count(n) == old(self).normal.count(n) + 1
                &&& forall|o: EncapNormalHeader| o != n ==> final(self).normal.count(o) == old(self).normal.count(o)
                &&& final(self).null == old(self).null
            },
            h matches EncapHeader::Null(n) ==> {
                &&& final(self).null.count(n) == old(self).null.count(n) + 1
                &&& forall|o: EncapNullHeader| o != n ==> final(self).null.count(o) == old(self).null.count(o)
                &&& final(self).normal == old(self).normal
            },
    {
        match h {
            EncapHeader::Normal(n) => self.normal.add(n),
            EncapHeader::Null(n) => self.null.add(n),
        }
    }
}

} // verus!
