//! Counting the symbols of a stream.

use vstd::prelude::*;

verus! {

/// The number of symbol values.
pub const SYMBOLS: usize = 256;

/// How often `symbol` occurs in `data`.
pub open spec fn count(data: Seq<u8>, symbol: u8) -> nat
    decreases data.len(),
{
    if data.len() == 0 {
        0
    } else {
        count(data.drop_last(), symbol) + (if data.last() == symbol {
            1nat
        } else {
            0nat
        })
    }
}

/// Whether entry `a` stands before entry `b` in a ranked table: the symbol
/// that occurs more often comes first, and of two that occur equally often
/// the one with the smaller value.
pub open spec fn ranks_before(a: (u8, u128), b: (u8, u128)) -> bool {
    a.1 > b.1 || (a.1 == b.1 && a.0 < b.0)
}

/// Whether entry `i` of the table is the entry of `symbol`.
pub open spec fn holds_symbol(table: Seq<(u8, u128)>, i: int, symbol: u8) -> bool {
    0 <= i < table.len() && table[i].0 == symbol
}

/// Whether the table has an entry for `symbol`.
pub open spec fn has_symbol(table: Seq<(u8, u128)>, symbol: u8) -> bool {
    exists|i: int| holds_symbol(table, i, symbol)
}

/// Whether the entries before `end` stand in rank order.
pub open spec fn is_ranked(table: Seq<(u8, u128)>, end: int) -> bool {
    forall|i: int, j: int| 0 <= i < j < end ==> ranks_before(#[trigger] table[i], #[trigger] table[j])
}

/// Whether no two entries of the table are of one symbol.
pub open spec fn has_distinct_symbols(table: Seq<(u8, u128)>) -> bool {
    forall|i: int, j: int|
        0 <= i < table.len() && 0 <= j < table.len() && i != j ==> (#[trigger] table[i]).0 != (
        #[trigger] table[j]).0
}

/// A ranked table: one entry for every symbol value, in rank order, with
/// counts that a stream in memory can reach.
pub open spec fn is_ranked_table(table: Seq<(u8, u128)>) -> bool {
    &&& table.len() == SYMBOLS
    &&& is_ranked(table, SYMBOLS as int)
    &&& forall|symbol: u8| has_symbol(table, symbol)
    &&& has_distinct_symbols(table)
    &&& forall|i: int| 0 <= i < table.len() ==> (#[trigger] table[i]).1 <= u64::MAX
}

/// Whether every entry of the table holds the count of its symbol in `data`.
pub open spec fn holds_counts(table: Seq<(u8, u128)>, data: Seq<u8>) -> bool {
    forall|i: int| 0 <= i < table.len() ==> (#[trigger] table[i]).1 == count(data, table[i].0)
}

/// Whether `table` is the frequency table of `data`.
pub open spec fn is_frequency_table(table: Seq<(u8, u128)>, data: Seq<u8>) -> bool {
    is_ranked_table(table) && holds_counts(table, data)
}

/// A symbol occurs in a stream at most as often as the stream is long.
pub proof fn lemma_count_bounded(data: Seq<u8>, symbol: u8)
    ensures
        count(data, symbol) <= data.len(),
    decreases data.len(),
{
    if data.len() > 0 {
        lemma_count_bounded(data.drop_last(), symbol);
    }
}

/// A symbol that stands in a stream occurs in it at least once.
pub proof fn lemma_count_positive(data: Seq<u8>, at: int)
    requires
        0 <= at < data.len(),
    ensures
        count(data, data[at]) >= 1,
    decreases data.len(),
{
    if at < data.len() - 1 {
        lemma_count_positive(data.drop_last(), at);
    }
}

/// Two frequency tables of one stream agree on their first `end` entries.
proof fn lemma_tables_agree(
    first: Seq<(u8, u128)>,
    second: Seq<(u8, u128)>,
    data: Seq<u8>,
    end: int,
)
    requires
        is_frequency_table(first, data),
        is_frequency_table(second, data),
        0 <= end <= SYMBOLS,
    ensures
        forall|j: int| 0 <= j < end ==> first[j] == second[j],
    decreases end,
{
    if end > 0 {
        lemma_tables_agree(first, second, data, end - 1);
        let i = end - 1;
        let x = first[i];
        let y = second[i];
        assert(has_symbol(second, x.0));
        let p = choose|p: int| holds_symbol(second, p, x.0);
        assert(second[p] == x);
        assert(has_symbol(first, y.0));
        let q = choose|q: int| holds_symbol(first, q, y.0);
        assert(first[q] == y);
        if p < i {
            assert(first[p] == second[p]);
        }
        if q < i {
            assert(first[q] == second[q]);
        }
        if p > i && q > i {
            assert(ranks_before(second[i], second[p]));
            assert(ranks_before(first[i], first[q]));
        }
    }
}

/// A stream has one frequency table.
pub proof fn lemma_frequency_table_is_unique(
    first: Seq<(u8, u128)>,
    second: Seq<(u8, u128)>,
    data: Seq<u8>,
)
    requires
        is_frequency_table(first, data),
        is_frequency_table(second, data),
    ensures
        first == second,
{
    lemma_tables_agree(first, second, data, SYMBOLS as int);
    assert(first =~= second);
}

/// The frequency table of a stream.
pub open spec fn frequency_table(data: Seq<u8>) -> Seq<(u8, u128)> {
    choose|table: Seq<(u8, u128)>| is_frequency_table(table, data)
}

/// The symbols of a stream, counted and ranked.
///
/// The table holds one entry for every symbol value, also for those that do
/// not occur. The entries stand by falling count; entries of equal count
/// stand by rising symbol value.
pub struct FrequencyTable {
    entries: Vec<(u8, u128)>,
}

impl View for FrequencyTable {
    type V = Seq<(u8, u128)>;

    closed spec fn view(&self) -> Seq<(u8, u128)> {
        self.entries@
    }
}

impl FrequencyTable {
    #[verifier::type_invariant]
    spec fn ranked(&self) -> bool {
        is_ranked_table(self.entries@)
    }

    /// The entries of the table, in rank order.
    pub fn entries(&self) -> (entries: &Vec<(u8, u128)>)
        ensures
            entries@ == self@,
            is_ranked_table(self@),
    {
        proof {
            use_type_invariant(self);
        }
        &self.entries
    }
}

/// Whether entry `a` stands before entry `b` in a ranked table.
fn stands_before(a: (u8, u128), b: (u8, u128)) -> (before: bool)
    ensures
        before == ranks_before(a, b),
{
    a.1 > b.1 || (a.1 == b.1 && a.0 < b.0)
}

/// What the counting and the ranking keep true of the entries: each holds
/// the count of its symbol, and every symbol has exactly one.
spec fn is_complete(entries: Seq<(u8, u128)>, data: Seq<u8>) -> bool {
    &&& entries.len() == SYMBOLS
    &&& holds_counts(entries, data)
    &&& has_distinct_symbols(entries)
    &&& forall|symbol: u8| has_symbol(entries, symbol)
}

/// Exchanging two entries keeps the entries complete.
proof fn lemma_exchange_keeps_complete(
    before: Seq<(u8, u128)>,
    after: Seq<(u8, u128)>,
    data: Seq<u8>,
    a: int,
    b: int,
)
    requires
        is_complete(before, data),
        0 <= a < before.len(),
        0 <= b < before.len(),
        after == before.update(a, before[b]).update(b, before[a]),
    ensures
        is_complete(after, data),
{
    assert forall|symbol: u8| has_symbol(after, symbol) by {
        assert(has_symbol(before, symbol));
        let i = choose|i: int| holds_symbol(before, i, symbol);
        let moved = if i == a {
            b
        } else if i == b {
            a
        } else {
            i
        };
        assert(holds_symbol(after, moved, symbol));
    }
}

/// Counts how often each symbol value occurs in `data` and ranks the counts.
pub fn stats(data: &Vec<u8>) -> (table: FrequencyTable)
    ensures
        is_frequency_table(table@, data@),
        table@ == frequency_table(data@),
{
    let mut entries: Vec<(u8, u128)> = Vec::new();
    let mut s: usize = 0;
    while s < SYMBOLS
        invariant
            s <= SYMBOLS,
            entries@.len() == s,
            forall|i: int| 0 <= i < s ==> (#[trigger] entries@[i]) == (i as u8, 0u128),
        decreases SYMBOLS - s,
    {
        entries.push((s as u8, 0));
        s += 1;
    }
    let mut k: usize = 0;
    while k < data.len()
        invariant
            k <= data@.len(),
            entries@.len() == SYMBOLS,
            forall|i: int|
                0 <= i < SYMBOLS ==> (#[trigger] entries@[i]).0 == i as u8 && entries@[i].1
                    == count(data@.take(k as int), i as u8),
        decreases data@.len() - k,
    {
        let symbol = data[k];
        let (_, seen) = entries[symbol as usize];
        proof {
            lemma_count_bounded(data@.take(k as int), symbol);
            assert(data@.take(k + 1).drop_last() =~= data@.take(k as int));
        }
        entries.set(symbol as usize, (symbol, seen + 1));
        k += 1;
    }
    proof {
        assert(data@.take(k as int) =~= data@);
        assert forall|symbol: u8| has_symbol(entries@, symbol) by {
            assert(holds_symbol(entries@, symbol as int, symbol));
        }
        assert(is_complete(entries@, data@));
    }
    let mut i: usize = 1;
    while i < SYMBOLS
        invariant
            1 <= i <= SYMBOLS,
            is_complete(entries@, data@),
            is_ranked(entries@, i as int),
        decreases SYMBOLS - i,
    {
        let mut j: usize = i;
        while j > 0 && stands_before(entries[j], entries[j - 1])
            invariant
                j <= i < SYMBOLS,
                is_complete(entries@, data@),
                forall|p: int, q: int|
                    0 <= p < q <= i && p != j && q != j ==> ranks_before(
                        #[trigger] entries@[p],
                        #[trigger] entries@[q],
                    ),
                forall|q: int| j < q <= i ==> ranks_before(entries@[j as int], #[trigger] entries@[q]),
            decreases j,
        {
            let ghost before = entries@;
            let lower = entries[j - 1];
            let upper = entries[j];
            entries.set(j - 1, upper);
            entries.set(j, lower);
            proof {
                lemma_exchange_keeps_complete(before, entries@, data@, j - 1, j as int);
            }
            j -= 1;
        }
        proof {
            if j > 0 {
                assert(entries@[j - 1].0 != entries@[j as int].0);
                assert(ranks_before(entries@[j - 1], entries@[j as int]));
            }
            assert forall|p: int, q: int| 0 <= p < q < i + 1 implies ranks_before(
                #[trigger] entries@[p],
                #[trigger] entries@[q],
            ) by {
                if q == j && p != j - 1 {
                    assert(ranks_before(entries@[p], entries@[j - 1]));
                }
            }
        }
        i += 1;
    }
    proof {
        assert forall|n: int| 0 <= n < entries@.len() implies (#[trigger] entries@[n]).1
            <= u64::MAX by {
            lemma_count_bounded(data@, entries@[n].0);
        }
    }
    proof {
        assert(is_frequency_table(entries@, data@));
        lemma_frequency_table_is_unique(entries@, frequency_table(data@), data@);
    }
    FrequencyTable { entries }
}

} // verus!
