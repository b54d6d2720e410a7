//! A cache that, when full, gives up the entry that has been used the
//! least often, and of several such the one whose last use is the oldest.
//! The entries stand in lists, one list for each use count, the most
//! recently used entry of a list first.

use vstd::prelude::*;

verus! {

/// An entry: key, value and use count.
#[derive(Clone, Copy, Debug, PartialEq, Eq)]
pub struct Node {
    key: i32,
    value: i32,
    freq: i32,
}

/// What an entry holds: key, value and use count.
pub type Entry = (i32, i32, i32);

/// A list of entries.
#[derive(Debug)]
pub struct List {
    nodes: Vec<Node>,
}

/// A use count and the list of the entries that have it.
pub type Row = (i32, Seq<Entry>);

impl Node {
    /// An entry that has been used once.
    pub fn new(key: i32, value: i32) -> (node: Node)
        ensures
            node@ == (key, value, 1i32),
    {
        Self { key, value, freq: 1 }
    }

    /// The key.
    pub fn key(&self) -> (key: i32)
        ensures
            key == self@.0,
    {
        self.key
    }

    /// The value.
    pub fn value(&self) -> (value: i32)
        ensures
            value == self@.1,
    {
        self.value
    }

    /// The use count.
    pub fn freq(&self) -> (freq: i32)
        ensures
            freq == self@.2,
    {
        self.freq
    }
}

impl View for Node {
    type V = Entry;

    closed spec fn view(&self) -> Entry {
        (self.key, self.value, self.freq)
    }
}

/// What a list of nodes holds.
pub open spec fn entries_of(nodes: Seq<Node>) -> Seq<Entry> {
    nodes.map_values(|node: Node| node@)
}

/// The place of the first entry under `key`, or the length of the list if
/// there is none.
pub open spec fn place_in(list: Seq<Entry>, key: i32) -> int
    decreases list.len(),
{
    if list.len() == 0 {
        0
    } else if list[0].0 == key {
        0
    } else {
        1 + place_in(list.drop_first(), key)
    }
}

/// The place that `place_in` finds is that of the first entry under the
/// key, and lies within the list or just behind it.
pub proof fn lemma_place_in(list: Seq<Entry>, key: i32)
    ensures
        0 <= place_in(list, key) <= list.len(),
        place_in(list, key) < list.len() ==> list[place_in(list, key)].0 == key,
        forall|i: int| 0 <= i < place_in(list, key) ==> (#[trigger] list[i]).0 != key,
    decreases list.len(),
{
    if list.len() > 0 && list[0].0 != key {
        let rest = list.drop_first();
        lemma_place_in(rest, key);
        assert forall|i: int| 0 <= i < place_in(list, key) implies (#[trigger] list[i]).0
            != key by {
            if i > 0 {
                assert(rest[i - 1] == list[i]);
            }
        }
    }
}

/// The list without its first entry under `key`.
pub open spec fn erased(list: Seq<Entry>, key: i32) -> Seq<Entry> {
    if place_in(list, key) < list.len() {
        list.remove(place_in(list, key))
    } else {
        list
    }
}

impl View for List {
    type V = Seq<Entry>;

    closed spec fn view(&self) -> Seq<Entry> {
        entries_of(self.nodes@)
    }
}

impl List {
    /// An empty list.
    pub fn new() -> (list: Self)
        ensures
            list@ == Seq::<Entry>::empty(),
    {
        let list = Self { nodes: Vec::new() };
        assert(list@ =~= Seq::<Entry>::empty());
        list
    }

    /// Takes the last entry off the list.
    pub fn pop_back(&mut self) -> (last: Option<Node>)
        ensures
            match last {
                Some(node) => old(self)@.len() > 0 && node@ == old(self)@.last() && final(self)@
                    == old(self)@.drop_last(),
                None => old(self)@.len() == 0 && final(self)@ == old(self)@,
            },
    {
        let last = self.nodes.pop();
        proof {
            if last is Some {
                assert(self@ =~= old(self)@.drop_last());
                assert(old(self)@.last() == old(self).nodes@.last()@);
            }
        }
        last
    }

    /// Puts `node` before the first entry of the list.
    pub fn push_front(&mut self, node: Node)
        ensures
            final(self)@ == seq![node@] + old(self)@,
    {
        self.nodes.insert(0, node);
        proof {
            assert(self@ =~= seq![node@] + old(self)@);
        }
    }

    /// Takes the first entry under the key of `node` out of the list, if
    /// there is one.
    pub fn erase(&mut self, node: Node)
        ensures
            final(self)@ == erased(old(self)@, node@.0),
    {
        let at = self.find(node.key);
        if at < self.nodes.len() {
            self.nodes.remove(at);
            proof {
                assert(self@ =~= old(self)@.remove(at as int));
            }
        }
    }

    /// The place of the first entry under `key`, or the length of the
    /// list.
    pub fn find(&self, key: i32) -> (at: usize)
        ensures
            at == place_in(self@, key),
            at <= self@.len(),
            self@.len() == self.len_spec(),
    {
        let mut at: usize = 0;
        while at < self.nodes.len()
            invariant
                at <= self.nodes.len(),
                self@.len() == self.nodes.len(),
                forall|i: int| 0 <= i < at ==> (#[trigger] self@[i]).0 != key,
            decreases self.nodes.len() - at,
        {
            proof {
                assert(self@[at as int] == self.nodes@[at as int]@);
            }
            if self.nodes[at].key == key {
                proof {
                    lemma_place_in(self@, key);
                    let found = place_in(self@, key);
                    if found < at {
                        assert(self@[found].0 == key);
                    }
                }
                return at;
            }
            at += 1;
        }
        proof {
            lemma_place_in(self@, key);
            let found = place_in(self@, key);
            if found < at {
                assert(self@[found].0 == key);
            }
        }
        at
    }

    /// The number of nodes in the list.
    pub closed spec fn len_spec(&self) -> nat {
        self.nodes@.len()
    }

    /// The entry at place `at`.
    pub fn node_at(&self, at: usize) -> (node: Node)
        requires
            at < self@.len(),
        ensures
            node@ == self@[at as int],
    {
        self.nodes[at]
    }

    /// Whether the list is empty.
    pub fn is_empty(&self) -> (empty: bool)
        ensures
            empty == (self@.len() == 0),
    {
        self.nodes.is_empty()
    }
}

/// A use count with the list of the entries that have it.
pub struct FreqRow {
    freq: i32,
    list: List,
}

/// The cache.
pub struct LFUCache {
    capacity: i32,
    size: usize,
    freq_table: Vec<FreqRow>,
    min_freq: i32,
}

/// The place of the first row for the use count `freq`, or the number of
/// rows if there is none.
pub open spec fn row_for(rows: Seq<Row>, freq: i32) -> int
    decreases rows.len(),
{
    if rows.len() == 0 {
        0
    } else if rows[0].0 == freq {
        0
    } else {
        1 + row_for(rows.drop_first(), freq)
    }
}

/// The place of the first row that has an entry under `key`, or the number
/// of rows if there is none.
pub open spec fn holder(rows: Seq<Row>, key: i32) -> int
    decreases rows.len(),
{
    if rows.len() == 0 {
        0
    } else if place_in(rows[0].1, key) < rows[0].1.len() {
        0
    } else {
        1 + holder(rows.drop_first(), key)
    }
}

/// The rows without the entry at place `at` of row `row`; a row that this
/// empties goes too.
pub open spec fn without(rows: Seq<Row>, row: int, at: int) -> Seq<Row> {
    if rows[row].1.len() == 1 {
        rows.remove(row)
    } else {
        rows.update(row, (rows[row].0, rows[row].1.remove(at)))
    }
}

/// The rows with `entry` put first in the row for `freq`, which is made,
/// behind the others, if there is none.
pub open spec fn fronted(rows: Seq<Row>, freq: i32, entry: Entry) -> Seq<Row> {
    let row = row_for(rows, freq);
    if row < rows.len() {
        rows.update(row, (freq, seq![entry] + rows[row].1))
    } else {
        rows.push((freq, seq![entry]))
    }
}

/// The rows after a use of the entry under `key`, with `value` as what the
/// entry holds from then on: it leaves its row for the first place of the
/// row of the next use count.
pub open spec fn touched(rows: Seq<Row>, key: i32, value: i32) -> Seq<Row> {
    let row = holder(rows, key);
    let at = place_in(rows[row].1, key);
    let freq = rows[row].1[at].2;
    fronted(without(rows, row, at), (freq + 1) as i32, (key, value, (freq + 1) as i32))
}

/// The least use count after a use of the entry under `key`: the next one
/// if the entry was the last of the least, and else the same.
pub open spec fn least_after_touch(rows: Seq<Row>, least: i32, key: i32) -> i32 {
    let row = holder(rows, key);
    let at = place_in(rows[row].1, key);
    let freq = rows[row].1[at].2;
    if rows[row].1.len() == 1 && least == freq {
        (freq + 1) as i32
    } else {
        least
    }
}

/// The rows without the entry that is given up: the last of the row for
/// the least use count.
pub open spec fn trimmed(rows: Seq<Row>, least: i32) -> Seq<Row> {
    let row = row_for(rows, least);
    without(rows, row, rows[row].1.len() - 1)
}

/// The place found by `row_for` is that of the first row for the use
/// count, and lies within the rows or just behind them.
pub proof fn lemma_row_for(rows: Seq<Row>, freq: i32)
    ensures
        0 <= row_for(rows, freq) <= rows.len(),
        row_for(rows, freq) < rows.len() ==> rows[row_for(rows, freq)].0 == freq,
        forall|i: int| 0 <= i < row_for(rows, freq) ==> (#[trigger] rows[i]).0 != freq,
    decreases rows.len(),
{
    if rows.len() > 0 && rows[0].0 != freq {
        let rest = rows.drop_first();
        lemma_row_for(rest, freq);
        assert forall|i: int| 0 <= i < row_for(rows, freq) implies (#[trigger] rows[i]).0
            != freq by {
            if i > 0 {
                assert(rest[i - 1] == rows[i]);
            }
        }
    }
}

/// A place before which no row is for the use count, and at which the rows
/// end or have one, is the place `row_for` finds.
pub proof fn lemma_row_found(rows: Seq<Row>, freq: i32, at: int)
    requires
        0 <= at <= rows.len(),
        forall|i: int| 0 <= i < at ==> (#[trigger] rows[i]).0 != freq,
        at < rows.len() ==> rows[at].0 == freq,
    ensures
        row_for(rows, freq) == at,
{
    lemma_row_for(rows, freq);
    let found = row_for(rows, freq);
    if found < at {
        assert(rows[found].0 == freq);
    }
}

/// The place found by `holder` is that of the first row with an entry
/// under the key, and lies within the rows or just behind them.
pub proof fn lemma_holder(rows: Seq<Row>, key: i32)
    ensures
        0 <= holder(rows, key) <= rows.len(),
        holder(rows, key) < rows.len() ==> place_in(rows[holder(rows, key)].1, key)
            < rows[holder(rows, key)].1.len(),
        forall|i: int|
            0 <= i < holder(rows, key) ==> place_in((#[trigger] rows[i]).1, key)
                >= rows[i].1.len(),
    decreases rows.len(),
{
    if rows.len() > 0 && !(place_in(rows[0].1, key) < rows[0].1.len()) {
        let rest = rows.drop_first();
        lemma_holder(rest, key);
        assert forall|i: int| 0 <= i < holder(rows, key) implies place_in(
            (#[trigger] rows[i]).1,
            key,
        ) >= rows[i].1.len() by {
            if i > 0 {
                assert(rest[i - 1] == rows[i]);
            }
        }
    }
}

/// A place before which no row has an entry under the key, and at which
/// the rows end or have one, is the place `holder` finds.
pub proof fn lemma_holder_found(rows: Seq<Row>, key: i32, at: int)
    requires
        0 <= at <= rows.len(),
        forall|i: int| 0 <= i < at ==> place_in((#[trigger] rows[i]).1, key) >= rows[i].1.len(),
        at < rows.len() ==> place_in(rows[at].1, key) < rows[at].1.len(),
    ensures
        holder(rows, key) == at,
{
    lemma_holder(rows, key);
    let found = holder(rows, key);
    if found < at {
        assert(place_in(rows[found].1, key) < rows[found].1.len());
    }
}

impl LFUCache {
    /// The rows of the cache: for each use count that an entry has, the
    /// entries that have it, the most recently used first.
    pub closed spec fn rows(&self) -> Seq<Row> {
        self.freq_table@.map_values(|row: FreqRow| (row.freq, row.list@))
    }

    /// The least use count of an entry, once the cache has one.
    pub closed spec fn least(&self) -> i32 {
        self.min_freq
    }

    /// The number of entries.
    pub closed spec fn count(&self) -> nat {
        self.size as nat
    }

    /// The number of entries the cache was made for.
    pub closed spec fn limit(&self) -> int {
        self.capacity as int
    }

    /// Whether every use count can still be raised.
    pub open spec fn countable(&self) -> bool {
        forall|i: int, j: int|
            0 <= i < self.rows().len() && 0 <= j < self.rows()[i].1.len() ==> (
            #[trigger] self.rows()[i].1[j]).2 < i32::MAX
    }

    /// The invariant: the cache was made for no fewer than no entries and
    /// holds no more than it was made for; no row is empty, and the
    /// entries of a row have the use count of the row; a cache with
    /// entries has rows, and one with rows has one for the least use
    /// count.
    pub closed spec fn wf(&self) -> bool {
        &&& 0 <= self.capacity
        &&& self.size <= self.capacity
        &&& forall|i: int| 0 <= i < self.rows().len() ==> (#[trigger] self.rows()[i]).1.len() > 0
        &&& forall|i: int, j: int|
            0 <= i < self.rows().len() && 0 <= j < self.rows()[i].1.len() ==> (
            #[trigger] self.rows()[i].1[j]).2 == self.rows()[i].0
        &&& self.rows().len() > 0 ==> row_for(self.rows(), self.min_freq) < self.rows().len()
        &&& self.size >= 1 ==> self.rows().len() > 0
    }

    /// An empty cache for `capacity` entries.
    pub fn new(capacity: i32) -> (cache: Self)
        requires
            capacity >= 0,
        ensures
            cache.wf(),
            cache.rows() == Seq::<Row>::empty(),
            cache.limit() == capacity,
            cache.count() == 0,
            cache.least() == 1,
    {
        let cache = Self { capacity, size: 0, freq_table: Vec::new(), min_freq: 1 };
        assert(cache.rows() =~= Seq::<Row>::empty());
        cache
    }

    /// The place of the first row for `freq`, or the number of rows.
    fn find_row(&self, freq: i32) -> (at: usize)
        ensures
            at == row_for(self.rows(), freq),
            at <= self.freq_table@.len(),
            self.rows().len() == self.freq_table@.len(),
    {
        let mut at: usize = 0;
        while at < self.freq_table.len()
            invariant
                at <= self.freq_table@.len(),
                self.rows().len() == self.freq_table@.len(),
                forall|i: int| 0 <= i < at ==> (#[trigger] self.rows()[i]).0 != freq,
            decreases self.freq_table.len() - at,
        {
            proof {
                assert(self.rows()[at as int].0 == self.freq_table@[at as int].freq);
            }
            if self.freq_table[at].freq == freq {
                proof {
                    lemma_row_found(self.rows(), freq, at as int);
                }
                return at;
            }
            at += 1;
        }
        proof {
            lemma_row_found(self.rows(), freq, at as int);
        }
        at
    }

    /// The place of the first row with an entry under `key`, or the number
    /// of rows, and the place of the entry in that row.
    fn find_key(&self, key: i32) -> (found: (usize, usize))
        ensures
            found.0 == holder(self.rows(), key),
            found.0 <= self.freq_table@.len(),
            self.rows().len() == self.freq_table@.len(),
            found.0 < self.freq_table@.len() ==> found.1 == place_in(
                self.rows()[found.0 as int].1,
                key,
            ) && found.1 < self.rows()[found.0 as int].1.len(),
    {
        let mut row: usize = 0;
        while row < self.freq_table.len()
            invariant
                row <= self.freq_table@.len(),
                self.rows().len() == self.freq_table@.len(),
                forall|i: int|
                    0 <= i < row ==> place_in((#[trigger] self.rows()[i]).1, key)
                        >= self.rows()[i].1.len(),
            decreases self.freq_table.len() - row,
        {
            proof {
                assert(self.rows()[row as int].1 == self.freq_table@[row as int].list@);
            }
            let at = self.freq_table[row].list.find(key);
            if at < self.freq_table[row].list.nodes.len() {
                proof {
                    lemma_holder_found(self.rows(), key, row as int);
                }
                return (row, at);
            }
            row += 1;
        }
        proof {
            lemma_holder_found(self.rows(), key, row as int);
        }
        (row, 0)
    }

    /// Takes the entry at place `at` of row `row` out of the rows; a row
    /// that this empties goes too.
    fn take(&mut self, row: usize, at: usize) -> (taken: (Node, bool))
        requires
            row < old(self).rows().len(),
            at < old(self).rows()[row as int].1.len(),
        ensures
            taken.0@ == old(self).rows()[row as int].1[at as int],
            taken.1 == (old(self).rows()[row as int].1.len() == 1),
            final(self).rows() == without(old(self).rows(), row as int, at as int),
            final(self).capacity == old(self).capacity,
            final(self).size == old(self).size,
            final(self).min_freq == old(self).min_freq,
    {
        proof {
            assert(self.rows()[row as int].1 == self.freq_table@[row as int].list@);
        }
        let ghost before = self.freq_table@[row as int].list@;
        let node = self.freq_table[row].list.nodes.remove(at);
        proof {
            assert(self.freq_table@[row as int].list@ =~= before.remove(at as int));
            assert(node@ == before[at as int]);
        }
        let emptied = self.freq_table[row].list.is_empty();
        if emptied {
            self.freq_table.remove(row);
            proof {
                assert(self.rows() =~= old(self).rows().remove(row as int));
            }
        } else {
            proof {
                assert(self.rows() =~= old(self).rows().update(
                    row as int,
                    (old(self).rows()[row as int].0, before.remove(at as int)),
                ));
            }
        }
        (node, emptied)
    }

    /// Puts `node` first in the row for its use count, which is made if
    /// there is none.
    fn place(&mut self, node: Node)
        ensures
            final(self).rows() == fronted(old(self).rows(), node@.2, node@),
            final(self).capacity == old(self).capacity,
            final(self).size == old(self).size,
            final(self).min_freq == old(self).min_freq,
    {
        let row = self.find_row(node.freq);
        if row < self.freq_table.len() {
            proof {
                assert(self.rows()[row as int] == (
                    self.freq_table@[row as int].freq,
                    self.freq_table@[row as int].list@,
                ));
            }
            self.freq_table[row].list.push_front(node);
            proof {
                lemma_row_for(old(self).rows(), node.freq);
                assert(self.rows() =~= fronted(old(self).rows(), node@.2, node@));
            }
        } else {
            let mut list = List::new();
            list.push_front(node);
            self.freq_table.push(FreqRow { freq: node.freq, list });
            proof {
                assert(seq![node@] + Seq::<Entry>::empty() =~= seq![node@]);
                assert(self.rows() =~= fronted(old(self).rows(), node@.2, node@));
            }
        }
    }

    /// Counts a use of the entry at place `at` of row `row`, which holds
    /// `value` from then on.
    fn upgrade(&mut self, row: usize, at: usize, value: i32)
        requires
            old(self).wf(),
            row < old(self).rows().len(),
            at < old(self).rows()[row as int].1.len(),
            row == holder(old(self).rows(), old(self).rows()[row as int].1[at as int].0),
            at == place_in(
                old(self).rows()[row as int].1,
                old(self).rows()[row as int].1[at as int].0,
            ),
            old(self).rows()[row as int].1[at as int].2 < i32::MAX,
        ensures
            final(self).wf(),
            final(self).rows() == touched(
                old(self).rows(),
                old(self).rows()[row as int].1[at as int].0,
                value,
            ),
            final(self).least() == least_after_touch(
                old(self).rows(),
                old(self).least(),
                old(self).rows()[row as int].1[at as int].0,
            ),
            final(self).limit() == old(self).limit(),
            final(self).count() == old(self).count(),
    {
        let ghost before = self.rows();
        let (node, emptied) = self.take(row, at);
        let freq = node.freq;
        if emptied && self.min_freq == freq {
            self.min_freq = freq + 1;
        }
        let ghost mid = self.rows();
        let fresh = Node { key: node.key, value, freq: freq + 1 };
        self.place(fresh);
        proof {
            assert(before[row as int].1[at as int].2 == before[row as int].0);
            Self::lemma_fronted(mid, fresh@.2, fresh@);
            Self::lemma_without(before, row as int, at as int, old(self).min_freq);
            lemma_row_for(mid, fresh@.2);
            let after = self.rows();
            assert forall|i: int, j: int|
                0 <= i < after.len() && 0 <= j < after[i].1.len() implies (
            #[trigger] after[i].1[j]).2 == after[i].0 by {
                let at_row = row_for(mid, fresh@.2);
                if i < mid.len() {
                    let origin = if before[row as int].1.len() == 1 && i >= row {
                        i + 1
                    } else {
                        i
                    };
                    if i == at_row {
                        if j > 0 {
                            assert(after[i].1[j] == mid[i].1[j - 1]);
                            if origin == row && before[row as int].1.len() != 1 {
                                let from = if j - 1 < at { j - 1 } else { j };
                                assert(mid[i].1[j - 1] == before[origin].1[from]);
                            } else {
                                assert(mid[i].1[j - 1] == before[origin].1[j - 1]);
                            }
                        }
                    } else {
                        assert(after[i] == mid[i]);
                        if origin == row && before[row as int].1.len() != 1 {
                            let from = if j < at { j } else { j + 1 };
                            assert(mid[i].1[j] == before[origin].1[from]);
                        } else {
                            assert(mid[i].1[j] == before[origin].1[j]);
                        }
                    }
                }
            }
        }
    }

    /// Putting an entry first in the row for its use count leaves no row
    /// empty, keeps every row that was there, and gives that use count a
    /// row.
    proof fn lemma_fronted(rows: Seq<Row>, freq: i32, entry: Entry)
        requires
            forall|i: int| 0 <= i < rows.len() ==> (#[trigger] rows[i]).1.len() > 0,
        ensures
            forall|i: int|
                0 <= i < fronted(rows, freq, entry).len() ==> (#[trigger] fronted(
                    rows,
                    freq,
                    entry,
                )[i]).1.len() > 0,
            row_for(fronted(rows, freq, entry), freq) < fronted(rows, freq, entry).len(),
            forall|other: i32|
                row_for(rows, other) < rows.len() ==> #[trigger] row_for(
                    fronted(rows, freq, entry),
                    other,
                ) < fronted(rows, freq, entry).len(),
    {
        let after = fronted(rows, freq, entry);
        lemma_row_for(rows, freq);
        let at = row_for(rows, freq);
        assert forall|other: i32| row_for(rows, other) < rows.len() implies #[trigger] row_for(
            after,
            other,
        ) < after.len() by {
            lemma_row_for(rows, other);
            lemma_row_for(after, other);
            let was = row_for(rows, other);
            if row_for(after, other) >= after.len() {
                assert(after[was].0 == other);
            }
        }
        lemma_row_for(after, freq);
        if row_for(after, freq) >= after.len() {
            if at < rows.len() {
                assert(after[at].0 == freq);
            } else {
                assert(after[rows.len() as int].0 == freq);
            }
        }
    }

    /// Taking an entry out leaves no row empty, and keeps the row for a
    /// use count unless that row was the one emptied.
    proof fn lemma_without(rows: Seq<Row>, row: int, at: int, freq: i32)
        requires
            forall|i: int| 0 <= i < rows.len() ==> (#[trigger] rows[i]).1.len() > 0,
            0 <= row < rows.len(),
            0 <= at < rows[row].1.len(),
        ensures
            forall|i: int|
                0 <= i < without(rows, row, at).len() ==> (#[trigger] without(
                    rows,
                    row,
                    at,
                )[i]).1.len() > 0,
            row_for(rows, freq) < rows.len() && !(rows[row].1.len() == 1 && rows[row].0 == freq)
                ==> row_for(without(rows, row, at), freq) < without(rows, row, at).len(),
    {
        let after = without(rows, row, at);
        lemma_row_for(rows, freq);
        lemma_row_for(after, freq);
        let was = row_for(rows, freq);
        if was < rows.len() && !(rows[row].1.len() == 1 && rows[row].0 == freq) {
            if row_for(after, freq) >= after.len() {
                if rows[row].1.len() == 1 {
                    if was < row {
                        assert(after[was].0 == freq);
                    } else {
                        assert(after[was - 1].0 == freq);
                    }
                } else {
                    assert(after[was].0 == freq);
                }
            }
        }
    }

    /// The value under `key`, whose use is counted; `-1` if there is no
    /// entry under the key, as in a cache made for no entries.
    pub fn get(&mut self, key: i32) -> (value: i32)
        requires
            old(self).wf(),
            old(self).countable(),
        ensures
            final(self).wf(),
            final(self).limit() == old(self).limit(),
            final(self).count() == old(self).count(),
            ({
                let rows = old(self).rows();
                let row = holder(rows, key);
                if old(self).limit() != 0 && row < rows.len() {
                    &&& value == rows[row].1[place_in(rows[row].1, key)].1
                    &&& final(self).rows() == touched(rows, key, value)
                    &&& final(self).least() == least_after_touch(rows, old(self).least(), key)
                } else {
                    value == -1 && *final(self) == *old(self)
                }
            }),
    {
        if self.capacity == 0 {
            return -1;
        }
        let (row, at) = self.find_key(key);
        if row < self.freq_table.len() {
            proof {
                assert(self.rows()[row as int].1 == self.freq_table@[row as int].list@);
                lemma_place_in(self.rows()[row as int].1, key);
            }
            let v = self.freq_table[row].list.node_at(at).value;
            self.upgrade(row, at, v);
            v
        } else {
            -1
        }
    }


    /// Puts `value` under `key` and counts a use of the entry. A cache
    /// made for no entries stays empty. If the key is new and the cache
    /// holds as many entries as it was made for, the last entry of the row
    /// for the least use count is given up for it; the new entry has been
    /// used once.
    pub fn put(&mut self, key: i32, value: i32)
        requires
            old(self).wf(),
            old(self).countable(),
        ensures
            final(self).wf(),
            final(self).limit() == old(self).limit(),
            ({
                let rows = old(self).rows();
                let row = holder(rows, key);
                if old(self).limit() == 0 {
                    *final(self) == *old(self)
                } else if row < rows.len() {
                    &&& final(self).rows() == touched(rows, key, value)
                    &&& final(self).least() == least_after_touch(rows, old(self).least(), key)
                    &&& final(self).count() == old(self).count()
                } else if old(self).count() == old(self).limit() {
                    &&& final(self).rows() == fronted(
                        trimmed(rows, old(self).least()),
                        1,
                        (key, value, 1i32),
                    )
                    &&& final(self).least() == 1
                    &&& final(self).count() == old(self).count()
                } else {
                    &&& final(self).rows() == fronted(rows, 1, (key, value, 1i32))
                    &&& final(self).least() == 1
                    &&& final(self).count() == old(self).count() + 1
                }
            }),
    {
        if self.capacity == 0 {
            return ;
        }
        let (row, at) = self.find_key(key);
        if row < self.freq_table.len() {
            proof {
                lemma_place_in(self.rows()[row as int].1, key);
            }
            self.upgrade(row, at, value);
        } else {
            let ghost before = self.rows();
            if self.capacity == self.size as i32 {
                let least = self.find_row(self.min_freq);
                proof {
                    assert(self.rows()[least as int].1 == self.freq_table@[least as int].list@);
                }
                let last = self.freq_table[least].list.nodes.len() - 1;
                self.take(least, last);
                self.size -= 1;
                proof {
                    Self::lemma_without(before, least as int, last as int, 1);
                    let mid = self.rows();
                    assert forall|i: int, j: int|
                        0 <= i < mid.len() && 0 <= j < mid[i].1.len() implies (
                    #[trigger] mid[i].1[j]).2 == mid[i].0 by {
                        let origin = if before[least as int].1.len() == 1 && i >= least {
                            i + 1
                        } else {
                            i
                        };
                        assert(mid[i].1[j] == before[origin].1[j]);
                    }
                }
            }
            let ghost mid = self.rows();
            self.size += 1;
            let fresh = Node::new(key, value);
            self.place(fresh);
            self.min_freq = 1;
            proof {
                Self::lemma_fronted(mid, 1, fresh@);
                lemma_row_for(mid, 1);
                let after = self.rows();
                let at_row = row_for(mid, 1);
                assert forall|i: int, j: int|
                    0 <= i < after.len() && 0 <= j < after[i].1.len() implies (
                #[trigger] after[i].1[j]).2 == after[i].0 by {
                    if i < mid.len() {
                        if i == at_row {
                            if j > 0 {
                                assert(after[i].1[j] == mid[i].1[j - 1]);
                            }
                        } else {
                            assert(after[i] == mid[i]);
                        }
                    }
                }
            }
        }
    }
}

} // verus!
