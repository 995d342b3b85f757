//! The frequency counter: derives one record per input line and tallies how
//! often each distinct record occurs.
//!
//! In word mode the record is the line itself; in character mode it is the
//! decimal string of how often a target character occurs in the line.

use crate::decimal::{dec_digits, usize_to_decimal};
use vstd::prelude::*;
use vstd::string::StrSliceExecFns;

verus! {

/// Number of occurrences of the character `c` in `s`.
pub open spec fn char_occurrences(s: Seq<char>, c: char) -> nat
    decreases s.len(),
{
    if s.len() == 0 {
        0
    } else {
        char_occurrences(s.drop_last(), c) + (if s.last() == c {
            1nat
        } else {
            0nat
        })
    }
}

/// Number of elements of `records` equal to `r`: the multiplicity of `r`.
pub open spec fn times_in(records: Seq<Seq<char>>, r: Seq<char>) -> nat
    decreases records.len(),
{
    if records.len() == 0 {
        0
    } else {
        times_in(records.drop_last(), r) + (if records.last() == r {
            1nat
        } else {
            0nat
        })
    }
}

/// Sum of a sequence of counts.
pub open spec fn sum_of(counts: Seq<nat>) -> nat
    decreases counts.len(),
{
    if counts.len() == 0 {
        0
    } else {
        sum_of(counts.drop_last()) + counts.last()
    }
}

/// The record derived from one line in character mode: the decimal string of
/// the number of occurrences of `c` in the line.
pub open spec fn char_mode_record(line: Seq<char>, c: char) -> Seq<char> {
    dec_digits(char_occurrences(line, c))
}

/// The records derived from a sequence of lines in character mode.
pub open spec fn char_mode_records(lines: Seq<Seq<char>>, c: char) -> Seq<Seq<char>> {
    lines.map_values(|line: Seq<char>| char_mode_record(line, c))
}

proof fn lemma_times_in_push(records: Seq<Seq<char>>, added: Seq<char>, r: Seq<char>)
    ensures
        times_in(records.push(added), r) == times_in(records, r) + (if r == added {
            1nat
        } else {
            0nat
        }),
{
    assert(records.push(added).drop_last() =~= records);
}

proof fn lemma_sum_of_push(counts: Seq<nat>, added: nat)
    ensures
        sum_of(counts.push(added)) == sum_of(counts) + added,
{
    assert(counts.push(added).drop_last() =~= counts);
}

proof fn lemma_sum_of_update(counts: Seq<nat>, i: int, v: nat)
    requires
        0 <= i < counts.len(),
    ensures
        sum_of(counts.update(i, v)) == sum_of(counts) - counts[i] + v,
    decreases counts.len(),
{
    if i == counts.len() - 1 {
        assert(counts.update(i, v).drop_last() =~= counts.drop_last());
    } else {
        assert(counts.update(i, v).drop_last() =~= counts.drop_last().update(i, v));
        lemma_sum_of_update(counts.drop_last(), i, v);
    }
}

proof fn lemma_sum_of_ge_element(counts: Seq<nat>, i: int)
    requires
        0 <= i < counts.len(),
    ensures
        counts[i] <= sum_of(counts),
    decreases counts.len(),
{
    if i == counts.len() - 1 {
    } else {
        lemma_sum_of_ge_element(counts.drop_last(), i);
    }
}

/// The view of a vector of (record, count) pairs: each record as its
/// character sequence, each count as a mathematical integer.
pub open spec fn entries_view(s: Seq<(String, usize)>) -> Seq<(Seq<char>, nat)> {
    Seq::new(s.len(), |i: int| (s[i].0@, s[i].1 as nat))
}

/// A mapping from record to positive occurrence count, keys unique, held as
/// two parallel vectors; iteration order carries no meaning.
pub struct FrequencyTable {
    keys: Vec<String>,
    counts: Vec<usize>,
}

impl FrequencyTable {
    /// The distinct records, in insertion order.
    pub closed spec fn key_seq(self) -> Seq<Seq<char>> {
        self.keys@.map_values(|k: String| k@)
    }

    /// The count of each record, positionally matching `key_seq`.
    pub closed spec fn count_seq(self) -> Seq<nat> {
        self.counts@.map_values(|c: usize| c as nat)
    }

    /// Well-formedness: one count per key, keys distinct, counts positive.
    pub open spec fn wf(self) -> bool {
        &&& self.key_seq().len() == self.count_seq().len()
        &&& forall|i: int, j: int|
            0 <= i < j < self.key_seq().len() ==> self.key_seq()[i] != self.key_seq()[j]
        &&& forall|i: int| 0 <= i < self.count_seq().len() ==> #[trigger] self.count_seq()[i] >= 1
    }

    /// Whether the record `r` has an entry.
    pub open spec fn contains_key(self, r: Seq<char>) -> bool {
        self.key_seq().contains(r)
    }

    /// Sum of all counts.
    pub open spec fn total(self) -> nat {
        sum_of(self.count_seq())
    }

    /// The entries as (record, count) pairs, in insertion order.
    pub open spec fn entry_seq(self) -> Seq<(Seq<char>, nat)> {
        Seq::new(self.key_seq().len(), |i: int| (self.key_seq()[i], self.count_seq()[i]))
    }

    /// The table is exactly the frequency table of `records`: it has one
    /// entry per distinct element of `records`, mapped to its multiplicity.
    pub open spec fn tallies(self, records: Seq<Seq<char>>) -> bool {
        &&& self.wf()
        &&& forall|i: int|
            0 <= i < self.key_seq().len() ==> #[trigger] self.count_seq()[i] == times_in(
                records,
                self.key_seq()[i],
            )
        &&& forall|i: int|
            0 <= i < self.key_seq().len() ==> records.contains(#[trigger] self.key_seq()[i])
        &&& forall|r: Seq<char>| records.contains(r) ==> self.contains_key(r)
    }

    /// The empty table.
    pub fn new() -> (t: Self)
        ensures
            t.wf(),
            t.key_seq() == Seq::<Seq<char>>::empty(),
            t.count_seq() == Seq::<nat>::empty(),
            t.tallies(Seq::<Seq<char>>::empty()),
            t.total() == 0,
    {
        let t = FrequencyTable { keys: Vec::new(), counts: Vec::new() };
        proof {
            assert(t.key_seq() =~= Seq::<Seq<char>>::empty());
            assert(t.count_seq() =~= Seq::<nat>::empty());
        }
        t
    }

    /// Number of distinct records.
    pub fn len(&self) -> (n: usize)
        ensures
            n == self.key_seq().len(),
    {
        self.keys.len()
    }

    /// The count recorded for `record`, or `None` if it has no entry.
    pub fn get(&self, record: &String) -> (r: Option<usize>)
        requires
            self.wf(),
        ensures
            r is Some <==> self.contains_key(record@),
            match r {
                Some(c) => exists|i: int|
                    0 <= i < self.key_seq().len() && self.key_seq()[i] == record@
                        && self.count_seq()[i] == c as nat,
                None => !self.contains_key(record@),
            },
    {
        let n = self.keys.len();
        let mut i: usize = 0;
        while i < n
            invariant
                self.wf(),
                n == self.keys@.len(),
                i <= n,
                forall|j: int| 0 <= j < i ==> self.key_seq()[j] != record@,
            decreases n - i,
        {
            if self.keys[i] == *record {
                assert(self.key_seq()[i as int] == record@);
                return Some(self.counts[i]);
            }
            i = i + 1;
        }
        assert(!self.contains_key(record@)) by {
            if self.key_seq().contains(record@) {
                let j = choose|j: int|
                    0 <= j < self.key_seq().len() && self.key_seq()[j] == record@;
                assert(self.key_seq()[j] != record@);
            }
        }
        None
    }

    /// Adds one occurrence of `record`: increments its count, or inserts it
    /// with count 1 on first occurrence.
    pub fn increment(&mut self, record: String)
        requires
            old(self).wf(),
            old(self).total() < usize::MAX,
        ensures
            final(self).wf(),
            final(self).total() == old(self).total() + 1,
            old(self).contains_key(record@) ==> {
                &&& final(self).key_seq() == old(self).key_seq()
                &&& forall|i: int|
                    0 <= i < final(self).count_seq().len() ==> #[trigger] final(self).count_seq()[i]
                        == old(self).count_seq()[i] + (if old(self).key_seq()[i]
                        == record@ {
                        1nat
                    } else {
                        0nat
                    })
            },
            !old(self).contains_key(record@) ==> {
                &&& final(self).key_seq() == old(self).key_seq().push(record@)
                &&& final(self).count_seq() == old(self).count_seq().push(1nat)
            },
    {
        let n = self.keys.len();
        let mut i: usize = 0;
        while i < n
            invariant
                *self == *old(self),
                old(self).wf(),
                old(self).total() < usize::MAX,
                n == self.keys@.len(),
                i <= n,
                forall|j: int| 0 <= j < i ==> self.key_seq()[j] != record@,
            decreases n - i,
        {
            if self.keys[i] == record {
                assert(self.key_seq()[i as int] == record@);
                let c = self.counts[i];
                proof {
                    lemma_sum_of_ge_element(self.count_seq(), i as int);
                }
                self.counts.set(i, c + 1);
                proof {
                    assert(self.count_seq() =~= old(self).count_seq().update(
                        i as int,
                        (c + 1) as nat,
                    ));
                    lemma_sum_of_update(old(self).count_seq(), i as int, (c + 1) as nat);
                    assert forall|k: int| 0 <= k < self.count_seq().len() implies #[trigger] self
                        .count_seq()[k] == old(self).count_seq()[k] + (if old(self).key_seq()[k]
                        == record@ {
                        1nat
                    } else {
                        0nat
                    }) by {
                        if k != i {
                            assert(old(self).key_seq()[k] != record@);
                        }
                    }
                }
                return;
            }
            i = i + 1;
        }
        proof {
            assert(!old(self).contains_key(record@)) by {
                if old(self).key_seq().contains(record@) {
                    let j = choose|j: int|
                        0 <= j < old(self).key_seq().len() && old(self).key_seq()[j] == record@;
                    assert(old(self).key_seq()[j] != record@);
                }
            }
        }
        self.keys.push(record);
        self.counts.push(1);
        proof {
            assert(self.key_seq() =~= old(self).key_seq().push(record@));
            assert(self.count_seq() =~= old(self).count_seq().push(1nat));
            lemma_sum_of_push(old(self).count_seq(), 1nat);
        }
    }

    /// Consumes the table into a vector of (record, count) pairs holding
    /// exactly its entries.
    pub fn into_entries(self) -> (r: Vec<(String, usize)>)
        requires
            self.wf(),
        ensures
            entries_view(r@).to_multiset() == self.entry_seq().to_multiset(),
            r@.len() == self.entry_seq().len(),
    {
        let FrequencyTable { mut keys, mut counts } = self;
        let ghost orig = self.entry_seq();
        let mut r: Vec<(String, usize)> = Vec::new();
        proof {
            assert(entries_view(r@).reverse() =~= orig.subrange(
                keys@.len() as int,
                orig.len() as int,
            ));
        }
        while keys.len() > 0
            invariant
                counts@.len() == keys@.len(),
                keys@.len() <= orig.len(),
                orig.len() == self.key_seq().len(),
                r@.len() + keys@.len() == orig.len(),
                forall|j: int|
                    0 <= j < keys@.len() ==> orig[j] == (keys@[j]@, counts@[j] as nat),
                entries_view(r@).reverse() =~= orig.subrange(keys@.len() as int, orig.len() as int),
            decreases keys@.len(),
        {
            let ghost prev_r = r@;
            let ghost prev_len = keys@.len() as int;
            let k = keys.pop().unwrap();
            let c = counts.pop().unwrap();
            r.push((k, c));
            proof {
                assert(orig[prev_len - 1] == (k@, c as nat));
                let mapped = entries_view(r@);
                let target = orig.subrange(keys@.len() as int, orig.len() as int);
                assert(keys@.len() == prev_len - 1);
                assert(prev_r.len() == orig.len() - prev_len);
                assert(r@ == prev_r.push((k, c)));
                assert(mapped.len() == prev_r.len() + 1);
                assert(mapped.len() == target.len());
                assert forall|i: int| 0 <= i < mapped.reverse().len() implies mapped.reverse()[i]
                    == target[i] by {
                    assert(mapped.reverse()[i] == mapped[mapped.len() - 1 - i]);
                    if i == 0 {
                        assert(mapped[mapped.len() - 1] == (k@, c as nat));
                    } else {
                        assert(mapped[mapped.len() - 1 - i] == entries_view(prev_r)[prev_r.len()
                            - i]);
                        assert(entries_view(prev_r).reverse()[i - 1] == orig.subrange(
                            prev_len,
                            orig.len() as int,
                        )[i - 1]);
                    }
                }
                assert(mapped.reverse() =~= target);
            }
        }
        proof {
            let mapped = entries_view(r@);
            assert(mapped.reverse() =~= orig);
            mapped.lemma_reverse_to_multiset();
            assert(mapped.to_multiset() =~= orig.to_multiset());
        }
        r
    }
}

/// Counts each distinct line of `lines`: the frequency table of the lines
/// themselves (word mode).
pub fn word_count_in_buf_reader(lines: &Vec<String>) -> (t: FrequencyTable)
    ensures
        t.tallies(lines@.map_values(|l: String| l@)),
        t.total() == lines@.len(),
{
    let ghost records = lines@.map_values(|l: String| l@);
    let mut t = FrequencyTable::new();
    let mut i: usize = 0;
    proof {
        assert(records.take(0) =~= Seq::<Seq<char>>::empty());
    }
    while i < lines.len()
        invariant
            i <= lines@.len(),
            records == lines@.map_values(|l: String| l@),
            records.len() == lines@.len(),
            t.tallies(records.take(i as int)),
            t.total() == i as nat,
        decreases lines@.len() - i,
    {
        let line = lines[i].clone();
        let ghost before = t;
        t.increment(line);
        proof {
            lemma_tallies_step(before, t, records.take(i as int), line@);
            assert(records.take(i as int).push(line@) =~= records.take(i + 1));
        }
        i = i + 1;
    }
    proof {
        assert(records.take(lines@.len() as int) =~= records);
    }
    t
}

/// Number of occurrences of the character `c` in the line.
fn count_char_occurrences(line: &str, c: char) -> (n: usize)
    ensures
        n as nat == char_occurrences(line@, c),
{
    let len = line.unicode_len();
    let mut n: usize = 0;
    let mut i: usize = 0;
    proof {
        assert(line@.take(0) =~= Seq::<char>::empty());
    }
    while i < len
        invariant
            i <= len,
            len == line@.len(),
            n <= i,
            n as nat == char_occurrences(line@.take(i as int), c),
        decreases len - i,
    {
        let ch = line.get_char(i);
        proof {
            assert(line@.take(i + 1).drop_last() =~= line@.take(i as int));
            assert(line@.take(i + 1).last() == line@[i as int]);
        }
        if ch == c {
            n = n + 1;
        }
        i = i + 1;
    }
    proof {
        assert(line@.take(len as int) =~= line@);
    }
    n
}

/// Counts, for each distinct per-line occurrence count of `character`, how
/// many lines produced it: the frequency table of the character-mode records
/// (character mode).
pub fn character_count_in_buf_reader(lines: &Vec<String>, character: char) -> (t: FrequencyTable)
    ensures
        t.tallies(char_mode_records(lines@.map_values(|l: String| l@), character)),
        t.total() == lines@.len(),
{
    let ghost records = char_mode_records(lines@.map_values(|l: String| l@), character);
    let mut t = FrequencyTable::new();
    let mut i: usize = 0;
    proof {
        assert(records.take(0) =~= Seq::<Seq<char>>::empty());
    }
    while i < lines.len()
        invariant
            i <= lines@.len(),
            records == char_mode_records(lines@.map_values(|l: String| l@), character),
            records.len() == lines@.len(),
            t.tallies(records.take(i as int)),
            t.total() == i as nat,
        decreases lines@.len() - i,
    {
        let occurrences = count_char_occurrences(lines[i].as_str(), character);
        let record = usize_to_decimal(occurrences);
        assert(record@ == records[i as int]);
        let ghost before = t;
        t.increment(record);
        proof {
            lemma_tallies_step(before, t, records.take(i as int), record@);
            assert(records.take(i as int).push(record@) =~= records.take(i + 1));
        }
        i = i + 1;
    }
    proof {
        assert(records.take(lines@.len() as int) =~= records);
    }
    t
}

/// One `increment` extends the tallied record sequence by one element.
proof fn lemma_tallies_step(
    before: FrequencyTable,
    after: FrequencyTable,
    records: Seq<Seq<char>>,
    added: Seq<char>,
)
    requires
        before.tallies(records),
        after.wf(),
        before.contains_key(added) ==> {
            &&& after.key_seq() == before.key_seq()
            &&& forall|i: int|
                0 <= i < after.count_seq().len() ==> #[trigger] after.count_seq()[i]
                    == before.count_seq()[i] + (if before.key_seq()[i] == added {
                    1nat
                } else {
                    0nat
                })
        },
        !before.contains_key(added) ==> {
            &&& after.key_seq() == before.key_seq().push(added)
            &&& after.count_seq() == before.count_seq().push(1nat)
        },
    ensures
        after.tallies(records.push(added)),
{
    let extended = records.push(added);
    assert forall|i: int| 0 <= i < after.key_seq().len() implies #[trigger] after.count_seq()[i]
        == times_in(extended, after.key_seq()[i]) by {
        lemma_times_in_push(records, added, after.key_seq()[i]);
        if before.contains_key(added) {
        } else {
            if i < before.key_seq().len() {
                assert(after.key_seq()[i] == before.key_seq()[i]);
                assert(before.key_seq()[i] != added) by {
                    if before.key_seq()[i] == added {
                        assert(before.key_seq().contains(added));
                    }
                }
            } else {
                assert(after.key_seq()[i] == added);
                assert(times_in(records, added) == 0) by {
                    assert(!records.contains(added)) by {
                        if records.contains(added) {
                            assert(before.contains_key(added));
                        }
                    }
                    lemma_times_in_zero_when_absent(records, added);
                }
            }
        }
    }
    assert forall|i: int| 0 <= i < after.key_seq().len() implies extended.contains(
        #[trigger] after.key_seq()[i],
    ) by {
        if before.contains_key(added) || i < before.key_seq().len() {
            assert(records.contains(after.key_seq()[i]));
            let j = choose|j: int|
                0 <= j < records.len() && records[j] == after.key_seq()[i];
            assert(extended[j] == after.key_seq()[i]);
        } else {
            assert(extended[records.len() as int] == added);
        }
    }
    assert forall|r: Seq<char>| extended.contains(r) implies after.contains_key(r) by {
        let j = choose|j: int| 0 <= j < extended.len() && extended[j] == r;
        if j < records.len() {
            assert(records[j] == r);
            assert(records.contains(r));
            assert(before.contains_key(r));
            let k = choose|k: int|
                0 <= k < before.key_seq().len() && before.key_seq()[k] == r;
            assert(after.key_seq()[k] == r);
        } else {
            assert(r == added);
            if before.contains_key(added) {
                let k = choose|k: int|
                    0 <= k < before.key_seq().len() && before.key_seq()[k] == added;
                assert(after.key_seq()[k] == added);
            } else {
                assert(after.key_seq()[before.key_seq().len() as int] == added);
            }
        }
    }
}

/// A record that does not occur in `records` has multiplicity zero.
proof fn lemma_times_in_zero_when_absent(records: Seq<Seq<char>>, r: Seq<char>)
    requires
        !records.contains(r),
    ensures
        times_in(records, r) == 0,
    decreases records.len(),
{
    if records.len() == 0 {
    } else {
        assert(records.last() != r) by {
            if records.last() == r {
                assert(records.contains(r));
            }
        }
        assert(!records.drop_last().contains(r)) by {
            if records.drop_last().contains(r) {
                let j = choose|j: int|
                    0 <= j < records.drop_last().len() && records.drop_last()[j] == r;
                assert(records[j] == r);
                assert(records.contains(r));
            }
        }
        lemma_times_in_zero_when_absent(records.drop_last(), r);
    }
}

} // verus!
