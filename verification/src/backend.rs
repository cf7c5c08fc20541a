//! An ordered key-value engine held in memory: tables of byte-string keys
//! in lexicographic order, sorted files that are built apart and ingested
//! whole, and a database of one table per column family.

use vstd::prelude::*;

verus! {

/// Strict lexicographic order on byte strings: a proper prefix is below
/// what it is a prefix of, and otherwise the first differing byte decides.
pub open spec fn lex_lt(a: Seq<u8>, b: Seq<u8>) -> bool
    decreases a.len(),
{
    if b.len() == 0 {
        false
    } else if a.len() == 0 {
        true
    } else if a[0] != b[0] {
        a[0] < b[0]
    } else {
        lex_lt(a.skip(1), b.skip(1))
    }
}

/// Whether `k` starts with `p`.
pub open spec fn is_prefix(p: Seq<u8>, k: Seq<u8>) -> bool {
    p.len() <= k.len() && k.subrange(0, p.len() as int) == p
}

/// Whether each key is strictly below the keys after it.
pub open spec fn ascending(keys: Seq<Seq<u8>>) -> bool {
    forall|i: int, j: int| 0 <= i < j < keys.len() ==> lex_lt(#[trigger] keys[i], #[trigger] keys[j])
}

/// No byte string is below itself.
pub proof fn lemma_lex_irreflexive(a: Seq<u8>)
    ensures
        !lex_lt(a, a),
    decreases a.len(),
{
    if a.len() > 0 {
        lemma_lex_irreflexive(a.skip(1));
    }
}

/// A byte string below one that is below a third is below the third.
pub proof fn lemma_lex_transitive(a: Seq<u8>, b: Seq<u8>, c: Seq<u8>)
    requires
        lex_lt(a, b),
        lex_lt(b, c),
    ensures
        lex_lt(a, c),
    decreases a.len(),
{
    if a.len() > 0 && a[0] == b[0] && b[0] == c[0] {
        lemma_lex_transitive(a.skip(1), b.skip(1), c.skip(1));
    }
}

/// Two byte strings are equal or one is below the other.
pub proof fn lemma_lex_total(a: Seq<u8>, b: Seq<u8>)
    ensures
        a == b || lex_lt(a, b) || lex_lt(b, a),
    decreases a.len(),
{
    if a.len() == 0 || b.len() == 0 {
        if a.len() == 0 && b.len() == 0 {
            assert(a =~= b);
        }
    } else if a[0] == b[0] {
        lemma_lex_total(a.skip(1), b.skip(1));
        if a.skip(1) == b.skip(1) {
            assert(a =~= seq![a[0]] + a.skip(1));
            assert(b =~= seq![b[0]] + b.skip(1));
        }
    }
}

/// Byte strings that agree on their first `i` bytes compare as what
/// follows those bytes.
pub proof fn lemma_lex_common_prefix(a: Seq<u8>, b: Seq<u8>, i: nat)
    requires
        i <= a.len(),
        i <= b.len(),
        forall|j: int| 0 <= j < i ==> a[j] == b[j],
    ensures
        lex_lt(a, b) == lex_lt(a.skip(i as int), b.skip(i as int)),
        (a == b) == (a.skip(i as int) == b.skip(i as int)),
    decreases i,
{
    if i == 0 {
        assert(a.skip(0) =~= a);
        assert(b.skip(0) =~= b);
    } else {
        lemma_lex_common_prefix(a.skip(1), b.skip(1), (i - 1) as nat);
        assert(a.skip(1).skip(i - 1) =~= a.skip(i as int));
        assert(b.skip(1).skip(i - 1) =~= b.skip(i as int));
        if a.skip(i as int) == b.skip(i as int) {
            assert(a =~= a.subrange(0, i as int) + a.skip(i as int));
            assert(b =~= b.subrange(0, i as int) + b.skip(i as int));
            assert(a.subrange(0, i as int) =~= b.subrange(0, i as int));
        }
    }
}

/// How one key stands to another.
#[derive(Clone, Copy, Debug, PartialEq, Eq, Structural)]
pub enum KeyOrder {
    Less,
    Equal,
    Greater,
}

/// Compares two keys in lexicographic order.
pub fn compare_keys(a: &[u8], b: &[u8]) -> (o: KeyOrder)
    ensures
        (o is Less) == lex_lt(a@, b@),
        (o is Equal) == (a@ == b@),
        (o is Greater) == lex_lt(b@, a@),
{
    let n: usize = a.len();
    let m: usize = b.len();
    let mut i: usize = 0;
    while i < n && i < m
        invariant
            i <= n,
            i <= m,
            n == a@.len(),
            m == b@.len(),
            forall|j: int| 0 <= j < i ==> a@[j] == b@[j],
        decreases n - i,
    {
        if a[i] != b[i] {
            proof {
                lemma_lex_common_prefix(a@, b@, i as nat);
                lemma_lex_common_prefix(b@, a@, i as nat);
                assert(a@.skip(i as int)[0] == a@[i as int]);
                assert(b@.skip(i as int)[0] == b@[i as int]);
            }
            if a[i] < b[i] {
                return KeyOrder::Less;
            } else {
                return KeyOrder::Greater;
            }
        }
        i = i + 1;
    }
    proof {
        lemma_lex_common_prefix(a@, b@, i as nat);
        lemma_lex_common_prefix(b@, a@, i as nat);
        if n == m {
            assert(a@.skip(i as int) =~= b@.skip(i as int));
            lemma_lex_irreflexive(a@);
        }
    }
    if n == m {
        KeyOrder::Equal
    } else if n < m {
        KeyOrder::Less
    } else {
        KeyOrder::Greater
    }
}

/// Whether `key` starts with `prefix`.
pub fn starts_with(key: &[u8], prefix: &[u8]) -> (b: bool)
    ensures
        b == is_prefix(prefix@, key@),
{
    let n: usize = prefix.len();
    if key.len() < n {
        return false;
    }
    let mut i: usize = 0;
    while i < n
        invariant
            i <= n,
            n == prefix@.len(),
            n <= key@.len(),
            forall|j: int| 0 <= j < i ==> key@[j] == prefix@[j],
        decreases n - i,
    {
        if key[i] != prefix[i] {
            proof {
                assert(key@.subrange(0, n as int)[i as int] == key@[i as int]);
            }
            return false;
        }
        i = i + 1;
    }
    proof {
        assert(key@.subrange(0, n as int) =~= prefix@);
    }
    true
}

/// A copy of a byte string.
pub fn copy_bytes(bytes: &[u8]) -> (copy: Vec<u8>)
    ensures
        copy@ == bytes@,
{
    let n: usize = bytes.len();
    let mut copy: Vec<u8> = Vec::with_capacity(n);
    let mut i: usize = 0;
    while i < n
        invariant
            i <= n,
            n == bytes@.len(),
            copy@ == bytes@.subrange(0, i as int),
        decreases n - i,
    {
        copy.push(bytes[i]);
        proof {
            assert(bytes@.subrange(0, i + 1) =~= bytes@.subrange(0, i as int).push(bytes@[i as int]));
        }
        i = i + 1;
    }
    proof {
        assert(bytes@.subrange(0, n as int) =~= bytes@);
    }
    copy
}

/// The byte strings that a list of vectors holds.
pub open spec fn byte_strings(list: Seq<Vec<u8>>) -> Seq<Seq<u8>> {
    Seq::new(list.len(), |i: int| list[i]@)
}

/// Whether `keys` is what a scan of `table` for `prefix` gives: the keys
/// of the table that start with the prefix, each once, in ascending order.
pub open spec fn scan_result(
    table: Map<Seq<u8>, Seq<u8>>,
    prefix: Seq<u8>,
    keys: Seq<Seq<u8>>,
) -> bool {
    &&& ascending(keys)
    &&& forall|k: Seq<u8>| #[trigger] keys.contains(k) == (table.contains_key(k) && is_prefix(prefix, k))
}

/// One row of a table.
#[derive(Debug, PartialEq, Eq)]
pub struct Row {
    pub key: Vec<u8>,
    pub value: Vec<u8>,
}

/// The keys of a list of rows, in the order of the rows.
pub open spec fn row_keys(rows: Seq<Row>) -> Seq<Seq<u8>> {
    Seq::new(rows.len(), |i: int| rows[i].key@)
}

/// Whether row `i` holds the key `k`.
pub open spec fn row_has_key(rows: Seq<Row>, i: int, k: Seq<u8>) -> bool {
    0 <= i < rows.len() && rows[i].key@ == k
}

/// A place at which the key `k` stands in `rows`.
pub open spec fn row_index(rows: Seq<Row>, k: Seq<u8>) -> int {
    choose|i: int| row_has_key(rows, i, k)
}

/// The map that a list of rows with distinct keys stands for.
pub open spec fn rows_map(rows: Seq<Row>) -> Map<Seq<u8>, Seq<u8>> {
    Map::new(
        |k: Seq<u8>| exists|i: int| row_has_key(rows, i, k),
        |k: Seq<u8>| rows[row_index(rows, k)].value@,
    )
}

/// In rows with ascending keys, a key stands at one place only.
pub proof fn lemma_rows_unique(rows: Seq<Row>, i: int, j: int)
    requires
        ascending(row_keys(rows)),
        0 <= i < rows.len(),
        0 <= j < rows.len(),
        rows[i].key@ == rows[j].key@,
    ensures
        i == j,
{
    let keys = row_keys(rows);
    lemma_lex_irreflexive(keys[i]);
    if i < j {
        assert(lex_lt(keys[i], keys[j]));
    } else if j < i {
        assert(lex_lt(keys[j], keys[i]));
    }
}

/// In rows with ascending keys, the map gives each row's key its value.
pub proof fn lemma_rows_map_at(rows: Seq<Row>, i: int)
    requires
        ascending(row_keys(rows)),
        0 <= i < rows.len(),
    ensures
        rows_map(rows).contains_key(rows[i].key@),
        rows_map(rows)[rows[i].key@] == rows[i].value@,
{
    let k = rows[i].key@;
    assert(row_has_key(rows, i, k));
    let j = row_index(rows, k);
    lemma_rows_unique(rows, i, j);
}

/// The map of ascending rows has as many keys as there are rows.
pub proof fn lemma_rows_map_len(rows: Seq<Row>)
    requires
        ascending(row_keys(rows)),
    ensures
        rows_map(rows).dom().finite(),
        rows_map(rows).dom().len() == rows.len(),
        rows_map(rows).dom() == row_keys(rows).to_set(),
{
    let keys = row_keys(rows);
    assert forall|i: int, j: int| 0 <= i < keys.len() && 0 <= j < keys.len() && i != j implies keys[i]
        != keys[j] by {
        if keys[i] == keys[j] {
            lemma_rows_unique(rows, i, j);
        }
    }
    assert(keys.no_duplicates());
    keys.unique_seq_to_set();
    vstd::seq_lib::seq_to_set_is_finite(keys);
    assert forall|k: Seq<u8>| rows_map(rows).dom().contains(k) == keys.to_set().contains(k) by {
        if rows_map(rows).dom().contains(k) {
            let i = choose|i: int| row_has_key(rows, i, k);
            assert(keys[i] == k);
        }
        if keys.to_set().contains(k) {
            let i = choose|i: int| 0 <= i < keys.len() && keys[i] == k;
            assert(row_has_key(rows, i, k));
        }
    }
    assert(rows_map(rows).dom() =~= keys.to_set());
}

/// Whether `key` belongs at place `idx` of ascending rows that lack it:
/// the keys before are below it and the keys from there on are above it.
pub open spec fn belongs_at(rows: Seq<Row>, idx: int, key: Seq<u8>) -> bool {
    &&& 0 <= idx <= rows.len()
    &&& forall|i: int| 0 <= i < idx ==> lex_lt((#[trigger] rows[i]).key@, key)
    &&& forall|i: int| idx <= i < rows.len() ==> lex_lt(key, (#[trigger] rows[i]).key@)
}

proof fn lemma_rows_absent(rows: Seq<Row>, idx: int, key: Seq<u8>)
    requires
        belongs_at(rows, idx, key),
    ensures
        !rows_map(rows).contains_key(key),
{
    if rows_map(rows).contains_key(key) {
        let i = choose|i: int| row_has_key(rows, i, key);
        lemma_lex_irreflexive(key);
    }
}

proof fn lemma_rows_insert(rows: Seq<Row>, idx: int, row: Row)
    requires
        ascending(row_keys(rows)),
        belongs_at(rows, idx, row.key@),
    ensures
        ascending(row_keys(rows.insert(idx, row))),
        rows_map(rows.insert(idx, row)) == rows_map(rows).insert(row.key@, row.value@),
{
    let after = rows.insert(idx, row);
    let keys = row_keys(rows);
    let keys2 = row_keys(after);
    assert forall|i: int, j: int| 0 <= i < j < keys2.len() implies lex_lt(
        #[trigger] keys2[i],
        #[trigger] keys2[j],
    ) by {
        let oi = if i < idx { i } else { i - 1 };
        let oj = if j < idx { j } else { j - 1 };
        if i == idx {
            assert(after[j] == rows[oj]);
        } else if j == idx {
            assert(after[i] == rows[oi]);
        } else {
            assert(after[i] == rows[oi]);
            assert(after[j] == rows[oj]);
            assert(lex_lt(keys[oi], keys[oj]));
        }
    }
    let m1 = rows_map(after);
    let m2 = rows_map(rows).insert(row.key@, row.value@);
    assert forall|k: Seq<u8>| m1.dom().contains(k) == m2.dom().contains(k) by {
        if m1.dom().contains(k) {
            let i = choose|i: int| row_has_key(after, i, k);
            if i < idx {
                assert(row_has_key(rows, i, k));
            } else if i > idx {
                assert(row_has_key(rows, i - 1, k));
            }
        }
        if m2.dom().contains(k) {
            if k == row.key@ {
                assert(row_has_key(after, idx, k));
            } else {
                let i = choose|i: int| row_has_key(rows, i, k);
                if i < idx {
                    assert(row_has_key(after, i, k));
                } else {
                    assert(row_has_key(after, i + 1, k));
                }
            }
        }
    }
    assert forall|k: Seq<u8>| m1.dom().contains(k) implies m1[k] == m2[k] by {
        let i = choose|i: int| row_has_key(after, i, k);
        lemma_rows_map_at(after, i);
        if i < idx {
            lemma_rows_map_at(rows, i);
            lemma_lex_irreflexive(k);
        } else if i > idx {
            lemma_rows_map_at(rows, i - 1);
            lemma_lex_irreflexive(k);
        }
    }
    assert(m1 =~= m2);
}

proof fn lemma_rows_remove(rows: Seq<Row>, idx: int)
    requires
        ascending(row_keys(rows)),
        0 <= idx < rows.len(),
    ensures
        ascending(row_keys(rows.remove(idx))),
        rows_map(rows.remove(idx)) == rows_map(rows).remove(rows[idx].key@),
{
    let after = rows.remove(idx);
    let keys = row_keys(rows);
    let keys2 = row_keys(after);
    let gone = rows[idx].key@;
    assert forall|i: int, j: int| 0 <= i < j < keys2.len() implies lex_lt(
        #[trigger] keys2[i],
        #[trigger] keys2[j],
    ) by {
        let oi = if i < idx { i } else { i + 1 };
        let oj = if j < idx { j } else { j + 1 };
        assert(after[i] == rows[oi]);
        assert(after[j] == rows[oj]);
        assert(lex_lt(keys[oi], keys[oj]));
    }
    let m1 = rows_map(after);
    let m2 = rows_map(rows).remove(gone);
    assert forall|k: Seq<u8>| m1.dom().contains(k) == m2.dom().contains(k) by {
        if m1.dom().contains(k) {
            let i = choose|i: int| row_has_key(after, i, k);
            let oi = if i < idx { i } else { i + 1 };
            assert(row_has_key(rows, oi, k));
            if k == gone {
                lemma_rows_unique(rows, oi, idx);
            }
        }
        if m2.dom().contains(k) {
            let i = choose|i: int| row_has_key(rows, i, k);
            if i < idx {
                assert(row_has_key(after, i, k));
            } else {
                assert(row_has_key(after, i - 1, k));
            }
        }
    }
    assert forall|k: Seq<u8>| m1.dom().contains(k) implies m1[k] == m2[k] by {
        let i = choose|i: int| row_has_key(after, i, k);
        let oi = if i < idx { i } else { i + 1 };
        lemma_rows_map_at(after, i);
        lemma_rows_map_at(rows, oi);
    }
    assert(m1 =~= m2);
}

/// A table: a map from byte-string keys to byte-string values whose rows
/// are kept in ascending order of their keys.
#[derive(Debug, PartialEq, Eq)]
pub struct Table {
    rows: Vec<Row>,
}

impl View for Table {
    type V = Map<Seq<u8>, Seq<u8>>;

    closed spec fn view(&self) -> Map<Seq<u8>, Seq<u8>> {
        rows_map(self.rows@)
    }
}

impl Table {
    /// The invariant of a table: its keys ascend strictly.
    pub closed spec fn wf(&self) -> bool {
        ascending(row_keys(self.rows@))
    }

    /// The keys of the table in ascending order.
    pub closed spec fn keys(&self) -> Seq<Seq<u8>> {
        row_keys(self.rows@)
    }

    /// The ordered keys of a table are the keys of its map, each once.
    pub proof fn lemma_keys(&self)
        requires
            self.wf(),
        ensures
            ascending(self.keys()),
            self.keys().no_duplicates(),
            self@.dom().finite(),
            self@.dom() == self.keys().to_set(),
            self@.len() == self.keys().len(),
            forall|k: Seq<u8>| self@.contains_key(k) <==> self.keys().contains(k),
    {
        lemma_rows_map_len(self.rows@);
        let keys = self.keys();
        assert forall|i: int, j: int| 0 <= i < keys.len() && 0 <= j < keys.len() && i
            != j implies keys[i] != keys[j] by {
            if keys[i] == keys[j] {
                lemma_rows_unique(self.rows@, i, j);
            }
        }
    }

    /// The empty table.
    pub fn new() -> (t: Table)
        ensures
            t.wf(),
            t@ == Map::<Seq<u8>, Seq<u8>>::empty(),
            t.keys() == Seq::<Seq<u8>>::empty(),
    {
        let t = Table { rows: Vec::new() };
        proof {
            assert(t@ =~= Map::<Seq<u8>, Seq<u8>>::empty());
            assert(t.keys() =~= Seq::<Seq<u8>>::empty());
        }
        t
    }

    /// Where `key` stands, or where it belongs if it is absent.
    fn find(&self, key: &[u8]) -> (r: (bool, usize))
        requires
            self.wf(),
        ensures
            r.1 <= self.rows@.len(),
            r.0 ==> r.1 < self.rows@.len() && self.rows@[r.1 as int].key@ == key@,
            !r.0 ==> belongs_at(self.rows@, r.1 as int, key@),
            r.0 == self@.contains_key(key@),
    {
        let mut lo: usize = 0;
        let mut hi: usize = self.rows.len();
        while lo < hi
            invariant
                self.wf(),
                lo <= hi <= self.rows@.len(),
                forall|i: int| 0 <= i < lo ==> lex_lt((#[trigger] self.rows@[i]).key@, key@),
                forall|i: int|
                    hi <= i < self.rows@.len() ==> lex_lt(key@, (#[trigger] self.rows@[i]).key@),
            decreases hi - lo,
        {
            let mid: usize = lo + (hi - lo) / 2;
            let ghost keys = row_keys(self.rows@);
            match compare_keys(self.rows[mid].key.as_slice(), key) {
                KeyOrder::Equal => {
                    proof {
                        assert(row_has_key(self.rows@, mid as int, key@));
                    }
                    return (true, mid);
                },
                KeyOrder::Less => {
                    proof {
                        assert forall|i: int| 0 <= i < mid + 1 implies lex_lt(
                            (#[trigger] self.rows@[i]).key@,
                            key@,
                        ) by {
                            if i < mid {
                                assert(lex_lt(keys[i], keys[mid as int]));
                                lemma_lex_transitive(keys[i], keys[mid as int], key@);
                            }
                        }
                    }
                    lo = mid + 1;
                },
                KeyOrder::Greater => {
                    proof {
                        assert forall|i: int| mid <= i < self.rows@.len() implies lex_lt(
                            key@,
                            (#[trigger] self.rows@[i]).key@,
                        ) by {
                            if i > mid {
                                assert(lex_lt(keys[mid as int], keys[i]));
                                lemma_lex_transitive(key@, keys[mid as int], keys[i]);
                            }
                        }
                    }
                    hi = mid;
                },
            }
        }
        proof {
            lemma_rows_absent(self.rows@, lo as int, key@);
        }
        (false, lo)
    }

    /// Whether the table holds `key`.
    pub fn contains_key(&self, key: &[u8]) -> (b: bool)
        requires
            self.wf(),
        ensures
            b == self@.contains_key(key@),
    {
        self.find(key).0
    }

    /// The value of `key`, if the table holds it.
    pub fn get(&self, key: &[u8]) -> (r: Option<&Vec<u8>>)
        requires
            self.wf(),
        ensures
            r is Some == self@.contains_key(key@),
            r matches Some(v) ==> v@ == self@[key@],
    {
        let (found, idx) = self.find(key);
        if found {
            proof {
                lemma_rows_map_at(self.rows@, idx as int);
            }
            Some(&self.rows[idx].value)
        } else {
            None
        }
    }

    /// Sets the value of `key`.
    pub fn insert(&mut self, key: &[u8], value: &[u8])
        requires
            old(self).wf(),
        ensures
            final(self).wf(),
            final(self)@ == old(self)@.insert(key@, value@),
    {
        let (found, idx) = self.find(key);
        let row = Row { key: copy_bytes(key), value: copy_bytes(value) };
        if found {
            proof {
                lemma_rows_remove(self.rows@, idx as int);
            }
            let gone = self.rows.remove(idx);
            proof {
                let mid = old(self).rows@.remove(idx as int);
                assert(belongs_at(mid, idx as int, key@)) by {
                    let keys = row_keys(old(self).rows@);
                    assert forall|i: int| 0 <= i < idx implies lex_lt(
                        (#[trigger] mid[i]).key@,
                        key@,
                    ) by {
                        assert(mid[i] == old(self).rows@[i]);
                        assert(lex_lt(keys[i], keys[idx as int]));
                    }
                    assert forall|i: int| idx <= i < mid.len() implies lex_lt(
                        key@,
                        (#[trigger] mid[i]).key@,
                    ) by {
                        assert(mid[i] == old(self).rows@[i + 1]);
                        assert(lex_lt(keys[idx as int], keys[i + 1]));
                    }
                }
                lemma_rows_insert(mid, idx as int, row);
                assert(old(self)@.remove(key@).insert(key@, value@) =~= old(self)@.insert(
                    key@,
                    value@,
                ));
            }
            self.rows.insert(idx, row);
        } else {
            proof {
                lemma_rows_insert(self.rows@, idx as int, row);
            }
            self.rows.insert(idx, row);
        }
    }

    /// Adds `key` with an empty value, or empties its value.
    pub fn insert_empty(&mut self, key: &[u8])
        requires
            old(self).wf(),
        ensures
            final(self).wf(),
            final(self)@ == old(self)@.insert(key@, Seq::<u8>::empty()),
    {
        let value: Vec<u8> = Vec::new();
        self.insert(key, value.as_slice());
    }

    /// Removes `key` and its value, if the table holds it.
    pub fn remove(&mut self, key: &[u8])
        requires
            old(self).wf(),
        ensures
            final(self).wf(),
            final(self)@ == old(self)@.remove(key@),
    {
        let (found, idx) = self.find(key);
        if found {
            proof {
                lemma_rows_remove(self.rows@, idx as int);
            }
            let gone = self.rows.remove(idx);
        } else {
            proof {
                assert(self@.remove(key@) =~= self@);
            }
        }
    }

    /// The number of rows.
    pub fn len(&self) -> (n: usize)
        requires
            self.wf(),
        ensures
            n == self@.len(),
            n == self.keys().len(),
            self@.dom().finite(),
    {
        proof {
            self.lemma_keys();
        }
        self.rows.len()
    }

    /// Whether the table has no row.
    pub fn is_empty(&self) -> (b: bool)
        requires
            self.wf(),
        ensures
            b == (self@.len() == 0),
            b == (self@ == Map::<Seq<u8>, Seq<u8>>::empty()),
    {
        proof {
            self.lemma_keys();
            if self.rows@.len() == 0 {
                assert(self@ =~= Map::<Seq<u8>, Seq<u8>>::empty());
            }
        }
        self.rows.len() == 0
    }

    /// The keys that start with `prefix`, in ascending order.
    pub fn scan_prefix(&self, prefix: &[u8]) -> (keys: Vec<Vec<u8>>)
        requires
            self.wf(),
        ensures
            scan_result(self@, prefix@, byte_strings(keys@)),
    {
        let mut out: Vec<Vec<u8>> = Vec::new();
        let n: usize = self.rows.len();
        let mut i: usize = 0;
        let ghost mut source: Seq<int> = Seq::empty();
        while i < n
            invariant
                i <= n,
                n == self.rows@.len(),
                self.wf(),
                source.len() == out@.len(),
                forall|a: int|
                    0 <= a < out@.len() ==> 0 <= #[trigger] source[a] < i && out@[a]@
                        == self.rows@[source[a]].key@ && is_prefix(prefix@, out@[a]@),
                forall|a: int, b: int| 0 <= a < b < out@.len() ==> source[a] < source[b],
                forall|j: int|
                    0 <= j < i && is_prefix(prefix@, (#[trigger] self.rows@[j]).key@)
                        ==> byte_strings(out@).contains(self.rows@[j].key@),
            decreases n - i,
        {
            if starts_with(self.rows[i].key.as_slice(), prefix) {
                let ghost before = out@;
                out.push(copy_bytes(self.rows[i].key.as_slice()));
                proof {
                    source = source.push(i as int);
                    assert forall|j: int|
                        0 <= j < i + 1 && is_prefix(
                            prefix@,
                            (#[trigger] self.rows@[j]).key@,
                        ) implies byte_strings(out@).contains(self.rows@[j].key@) by {
                        if j < i {
                            let a = choose|a: int|
                                0 <= a < byte_strings(before).len() && byte_strings(before)[a]
                                    == self.rows@[j].key@;
                            assert(byte_strings(out@)[a] == self.rows@[j].key@);
                        } else {
                            assert(byte_strings(out@)[out@.len() - 1] == self.rows@[j].key@);
                        }
                    }
                }
            }
            i = i + 1;
        }
        proof {
            let keys = byte_strings(out@);
            assert forall|a: int, b: int| 0 <= a < b < keys.len() implies lex_lt(
                #[trigger] keys[a],
                #[trigger] keys[b],
            ) by {
                assert(lex_lt(row_keys(self.rows@)[source[a]], row_keys(self.rows@)[source[b]]));
            }
            assert forall|k: Seq<u8>| keys.contains(k) == (self@.contains_key(k) && is_prefix(
                prefix@,
                k,
            )) by {
                if keys.contains(k) {
                    let a = choose|a: int| 0 <= a < keys.len() && keys[a] == k;
                    assert(row_has_key(self.rows@, source[a], k));
                }
                if self@.contains_key(k) && is_prefix(prefix@, k) {
                    let j = choose|j: int| row_has_key(self.rows@, j, k);
                    assert(byte_strings(out@).contains(self.rows@[j].key@));
                }
            }
        }
        out
    }

    /// A copy of the table.
    pub fn snapshot(&self) -> (copy: Table)
        requires
            self.wf(),
        ensures
            copy.wf(),
            copy@ == self@,
            copy.keys() == self.keys(),
    {
        let mut rows: Vec<Row> = Vec::new();
        let n: usize = self.rows.len();
        let mut i: usize = 0;
        while i < n
            invariant
                i <= n,
                n == self.rows@.len(),
                rows@.len() == i,
                forall|j: int|
                    0 <= j < i ==> (#[trigger] rows@[j]).key@ == self.rows@[j].key@ && rows@[j].value@
                        == self.rows@[j].value@,
            decreases n - i,
        {
            rows.push(
                Row {
                    key: copy_bytes(self.rows[i].key.as_slice()),
                    value: copy_bytes(self.rows[i].value.as_slice()),
                },
            );
            i = i + 1;
        }
        let copy = Table { rows };
        proof {
            assert(row_keys(copy.rows@) =~= row_keys(self.rows@));
            assert forall|k: Seq<u8>| copy@.dom().contains(k) == self@.dom().contains(k) by {
                if copy@.dom().contains(k) {
                    let j = choose|j: int| row_has_key(copy.rows@, j, k);
                    assert(row_has_key(self.rows@, j, k));
                }
                if self@.dom().contains(k) {
                    let j = choose|j: int| row_has_key(self.rows@, j, k);
                    assert(row_has_key(copy.rows@, j, k));
                }
            }
            assert forall|k: Seq<u8>| copy@.dom().contains(k) implies copy@[k] == self@[k] by {
                let j = choose|j: int| row_has_key(copy.rows@, j, k);
                lemma_rows_map_at(copy.rows@, j);
                lemma_rows_map_at(self.rows@, j);
            }
            assert(copy@ =~= self@);
        }
        copy
    }
}

/// The column families of the store: one table each.
#[derive(Clone, Copy, Debug, PartialEq, Eq, Hash, Structural)]
pub enum ColumnFamily {
    Default,
    Id2Str,
    Spog,
    Posg,
    Ospg,
    Gspo,
    Gpos,
    Gosp,
    Dspo,
    Dpos,
    Dosp,
    Graphs,
}

/// The number of column families.
pub const COLUMN_FAMILY_COUNT: usize = 12;

impl ColumnFamily {
    /// The place of the family's table in the database.
    pub open spec fn spec_index(self) -> int {
        match self {
            ColumnFamily::Default => 0,
            ColumnFamily::Id2Str => 1,
            ColumnFamily::Spog => 2,
            ColumnFamily::Posg => 3,
            ColumnFamily::Ospg => 4,
            ColumnFamily::Gspo => 5,
            ColumnFamily::Gpos => 6,
            ColumnFamily::Gosp => 7,
            ColumnFamily::Dspo => 8,
            ColumnFamily::Dpos => 9,
            ColumnFamily::Dosp => 10,
            ColumnFamily::Graphs => 11,
        }
    }

    /// The place of the family's table in the database.
    pub fn index(self) -> (i: usize)
        ensures
            i == self.spec_index(),
            i < COLUMN_FAMILY_COUNT,
    {
        match self {
            ColumnFamily::Default => 0,
            ColumnFamily::Id2Str => 1,
            ColumnFamily::Spog => 2,
            ColumnFamily::Posg => 3,
            ColumnFamily::Ospg => 4,
            ColumnFamily::Gspo => 5,
            ColumnFamily::Gpos => 6,
            ColumnFamily::Gosp => 7,
            ColumnFamily::Dspo => 8,
            ColumnFamily::Dpos => 9,
            ColumnFamily::Dosp => 10,
            ColumnFamily::Graphs => 11,
        }
    }

    /// The name under which the family is stored.
    pub fn name(self) -> (n: &'static str)
        ensures
            n@ == self.spec_name(),
    {
        match self {
            ColumnFamily::Default => "default",
            ColumnFamily::Id2Str => "id2str",
            ColumnFamily::Spog => "spog",
            ColumnFamily::Posg => "posg",
            ColumnFamily::Ospg => "ospg",
            ColumnFamily::Gspo => "gspo",
            ColumnFamily::Gpos => "gpos",
            ColumnFamily::Gosp => "gosp",
            ColumnFamily::Dspo => "dspo",
            ColumnFamily::Dpos => "dpos",
            ColumnFamily::Dosp => "dosp",
            ColumnFamily::Graphs => "graphs",
        }
    }

    /// The name under which the family is stored.
    pub open spec fn spec_name(self) -> Seq<char> {
        match self {
            ColumnFamily::Default => "default"@,
            ColumnFamily::Id2Str => "id2str"@,
            ColumnFamily::Spog => "spog"@,
            ColumnFamily::Posg => "posg"@,
            ColumnFamily::Ospg => "ospg"@,
            ColumnFamily::Gspo => "gspo"@,
            ColumnFamily::Gpos => "gpos"@,
            ColumnFamily::Gosp => "gosp"@,
            ColumnFamily::Dspo => "dspo"@,
            ColumnFamily::Dpos => "dpos"@,
            ColumnFamily::Dosp => "dosp"@,
            ColumnFamily::Graphs => "graphs"@,
        }
    }
}

/// The column family at a place in the database.
pub fn column_family_at(i: usize) -> (cf: ColumnFamily)
    requires
        i < COLUMN_FAMILY_COUNT,
    ensures
        cf.spec_index() == i,
{
    if i == 0 {
        ColumnFamily::Default
    } else if i == 1 {
        ColumnFamily::Id2Str
    } else if i == 2 {
        ColumnFamily::Spog
    } else if i == 3 {
        ColumnFamily::Posg
    } else if i == 4 {
        ColumnFamily::Ospg
    } else if i == 5 {
        ColumnFamily::Gspo
    } else if i == 6 {
        ColumnFamily::Gpos
    } else if i == 7 {
        ColumnFamily::Gosp
    } else if i == 8 {
        ColumnFamily::Dspo
    } else if i == 9 {
        ColumnFamily::Dpos
    } else if i == 10 {
        ColumnFamily::Dosp
    } else {
        ColumnFamily::Graphs
    }
}

/// How a column family is set up: whether it is scanned, how many bytes of
/// a key every scan of it fixes at least, and whether its writes may be
/// applied in any order.
#[derive(Clone, Copy, Debug, PartialEq, Eq, Structural)]
pub struct ColumnFamilyDefinition {
    pub family: ColumnFamily,
    pub use_iter: bool,
    pub min_prefix_size: usize,
    pub unordered_writes: bool,
}

/// A file of rows in ascending order of their keys, ready to be ingested.
#[derive(Debug, PartialEq, Eq)]
pub struct SstFile {
    rows: Vec<Row>,
}

impl View for SstFile {
    type V = Map<Seq<u8>, Seq<u8>>;

    closed spec fn view(&self) -> Map<Seq<u8>, Seq<u8>> {
        rows_map(self.rows@)
    }
}

impl SstFile {
    /// The invariant of a sorted file: its keys ascend strictly.
    pub closed spec fn wf(&self) -> bool {
        ascending(row_keys(self.rows@))
    }

    /// The keys of the file in ascending order.
    pub closed spec fn keys(&self) -> Seq<Seq<u8>> {
        row_keys(self.rows@)
    }

    /// Whether `key` may be added: the file is empty or its last key is
    /// below `key`.
    pub open spec fn accepts(&self, key: Seq<u8>) -> bool {
        self.keys().len() == 0 || lex_lt(self.keys().last(), key)
    }

    /// The empty file.
    pub fn new() -> (f: SstFile)
        ensures
            f.wf(),
            f@ == Map::<Seq<u8>, Seq<u8>>::empty(),
            f.keys() == Seq::<Seq<u8>>::empty(),
    {
        let f = SstFile { rows: Vec::new() };
        proof {
            assert(f@ =~= Map::<Seq<u8>, Seq<u8>>::empty());
            assert(f.keys() =~= Seq::<Seq<u8>>::empty());
        }
        f
    }

    /// Adds a row at the end of the file. The key has to be above the last
    /// key of the file; otherwise the file stays as it is and the key is
    /// refused.
    pub fn insert(&mut self, key: &[u8], value: &[u8]) -> (r: Result<(), crate::error::StorageError>)
        requires
            old(self).wf(),
        ensures
            final(self).wf(),
            old(self).accepts(key@) ==> r is Ok && final(self)@ == old(self)@.insert(key@, value@)
                && final(self).keys() == old(self).keys().push(key@),
            !old(self).accepts(key@) ==> r == Err::<(), _>(
                crate::error::StorageError::Engine(crate::error::EngineError::KeysOutOfOrder),
            ) && final(self)@ == old(self)@ && final(self).keys() == old(self).keys(),
    {
        let n: usize = self.rows.len();
        if n > 0 {
            match compare_keys(self.rows[n - 1].key.as_slice(), key) {
                KeyOrder::Less => {},
                _ => {
                    return Err(
                        crate::error::StorageError::Engine(
                            crate::error::EngineError::KeysOutOfOrder,
                        ),
                    );
                },
            }
        }
        let row = Row { key: copy_bytes(key), value: copy_bytes(value) };
        proof {
            let keys = row_keys(self.rows@);
            assert(belongs_at(self.rows@, n as int, key@)) by {
                assert forall|i: int| 0 <= i < n implies lex_lt(
                    (#[trigger] self.rows@[i]).key@,
                    key@,
                ) by {
                    if i < n - 1 {
                        assert(lex_lt(keys[i], keys[n - 1]));
                        lemma_lex_transitive(keys[i], keys[n - 1], key@);
                    }
                }
            }
            lemma_rows_insert(self.rows@, n as int, row);
            assert(self.rows@.insert(n as int, row) =~= self.rows@.push(row));
            assert(row_keys(self.rows@.push(row)) =~= row_keys(self.rows@).push(key@));
        }
        self.rows.push(row);
        Ok(())
    }

    /// Adds a key with an empty value at the end of the file.
    pub fn insert_empty(&mut self, key: &[u8]) -> (r: Result<(), crate::error::StorageError>)
        requires
            old(self).wf(),
        ensures
            final(self).wf(),
            old(self).accepts(key@) ==> r is Ok && final(self)@ == old(self)@.insert(
                key@,
                Seq::<u8>::empty(),
            ) && final(self).keys() == old(self).keys().push(key@),
            !old(self).accepts(key@) ==> r == Err::<(), _>(
                crate::error::StorageError::Engine(crate::error::EngineError::KeysOutOfOrder),
            ) && final(self)@ == old(self)@ && final(self).keys() == old(self).keys(),
    {
        let value: Vec<u8> = Vec::new();
        self.insert(key, value.as_slice())
    }

    /// Adds a row at the end of the file.
    pub fn insert_key_value(&mut self, key: &[u8], value: &[u8]) -> (r: Result<
        (),
        crate::error::StorageError,
    >)
        requires
            old(self).wf(),
        ensures
            final(self).wf(),
            old(self).accepts(key@) ==> r is Ok && final(self)@ == old(self)@.insert(key@, value@)
                && final(self).keys() == old(self).keys().push(key@),
            !old(self).accepts(key@) ==> r == Err::<(), _>(
                crate::error::StorageError::Engine(crate::error::EngineError::KeysOutOfOrder),
            ) && final(self)@ == old(self)@ && final(self).keys() == old(self).keys(),
    {
        self.insert(key, value)
    }

    /// The number of rows.
    pub fn len(&self) -> (n: usize)
        requires
            self.wf(),
        ensures
            n == self.keys().len(),
            n == self@.len(),
    {
        proof {
            lemma_rows_map_len(self.rows@);
        }
        self.rows.len()
    }
}

impl Table {
    /// Adds the rows of a sorted file whose keys the table lacks. A row
    /// whose key the table holds already is left as it is.
    pub fn ingest(&mut self, file: &SstFile)
        requires
            old(self).wf(),
            file.wf(),
        ensures
            final(self).wf(),
            final(self)@ == file@.union_prefer_right(old(self)@),
    {
        let n: usize = file.rows.len();
        let mut i: usize = 0;
        proof {
            assert(rows_map(file.rows@.subrange(0, 0)).union_prefer_right(self@) =~= self@);
        }
        while i < n
            invariant
                i <= n,
                n == file.rows@.len(),
                file.wf(),
                self.wf(),
                self@ == rows_map(file.rows@.subrange(0, i as int)).union_prefer_right(old(self)@),
            decreases n - i,
        {
            let ghost part = file.rows@.subrange(0, i as int);
            let ghost next = file.rows@.subrange(0, i + 1);
            let ghost k = file.rows@[i as int].key@;
            let ghost v = file.rows@[i as int].value@;
            proof {
                assert(next =~= part.insert(i as int, file.rows@[i as int]));
                assert(ascending(row_keys(part))) by {
                    assert forall|a: int, b: int| 0 <= a < b < row_keys(part).len() implies lex_lt(
                        #[trigger] row_keys(part)[a],
                        #[trigger] row_keys(part)[b],
                    ) by {
                        assert(lex_lt(row_keys(file.rows@)[a], row_keys(file.rows@)[b]));
                    }
                }
                assert(belongs_at(part, i as int, k)) by {
                    assert forall|a: int| 0 <= a < i implies lex_lt((#[trigger] part[a]).key@, k) by {
                        assert(lex_lt(row_keys(file.rows@)[a], row_keys(file.rows@)[i as int]));
                    }
                }
                lemma_rows_insert(part, i as int, file.rows@[i as int]);
                lemma_rows_absent(part, i as int, k);
            }
            if !self.contains_key(file.rows[i].key.as_slice()) {
                self.insert(file.rows[i].key.as_slice(), file.rows[i].value.as_slice());
            }
            proof {
                assert(self@ =~= rows_map(next).union_prefer_right(old(self)@));
            }
            i = i + 1;
        }
        proof {
            assert(file.rows@.subrange(0, n as int) =~= file.rows@);
        }
    }
}

/// A database: one table for each column family.
#[derive(Debug, PartialEq, Eq)]
pub struct Db {
    tables: Vec<Table>,
    definitions: Vec<ColumnFamilyDefinition>,
    flushes: Vec<u64>,
    compactions: Vec<u64>,
}

/// A count after one more event. A count that is full stays as it is.
pub open spec fn counted(n: u64) -> u64 {
    if n < u64::MAX {
        (n + 1) as u64
    } else {
        n
    }
}

/// A count for each column family, all of them zero.
fn no_counts() -> (counts: Vec<u64>)
    ensures
        counts@.len() == COLUMN_FAMILY_COUNT,
        forall|i: int| 0 <= i < counts@.len() ==> counts@[i] == 0,
{
    let mut counts: Vec<u64> = Vec::new();
    let mut i: usize = 0;
    while i < COLUMN_FAMILY_COUNT
        invariant
            i <= COLUMN_FAMILY_COUNT,
            counts@.len() == i,
            forall|j: int| 0 <= j < i ==> counts@[j] == 0,
        decreases COLUMN_FAMILY_COUNT - i,
    {
        counts.push(0);
        i = i + 1;
    }
    counts
}

/// A copy of a list of counts.
fn copy_counts(counts: &Vec<u64>) -> (copy: Vec<u64>)
    ensures
        copy@ == counts@,
{
    let mut copy: Vec<u64> = Vec::new();
    let n: usize = counts.len();
    let mut i: usize = 0;
    while i < n
        invariant
            i <= n,
            n == counts@.len(),
            copy@ == counts@.subrange(0, i as int),
        decreases n - i,
    {
        copy.push(counts[i]);
        proof {
            assert(counts@.subrange(0, i + 1) =~= counts@.subrange(0, i as int).push(
                counts@[i as int],
            ));
        }
        i = i + 1;
    }
    proof {
        assert(counts@.subrange(0, n as int) =~= counts@);
    }
    copy
}

/// The content of a database: the rows of each column family.
pub type DbView = Map<ColumnFamily, Map<Seq<u8>, Seq<u8>>>;

impl View for Db {
    type V = DbView;

    closed spec fn view(&self) -> DbView {
        Map::total(|cf: ColumnFamily| self.tables@[cf.spec_index()]@)
    }
}

impl Db {
    /// The invariant of a database: it has a well-formed table for each
    /// column family.
    pub closed spec fn wf(&self) -> bool {
        &&& self.tables@.len() == COLUMN_FAMILY_COUNT
        &&& self.flushes@.len() == COLUMN_FAMILY_COUNT
        &&& self.compactions@.len() == COLUMN_FAMILY_COUNT
        &&& forall|i: int| 0 <= i < self.tables@.len() ==> (#[trigger] self.tables@[i]).wf()
    }

    /// The definitions that the database was made with.
    pub closed spec fn definitions(&self) -> Seq<ColumnFamilyDefinition> {
        self.definitions@
    }

    /// How often each column family was flushed, by the place of the
    /// family.
    pub closed spec fn flushes(&self) -> Seq<u64> {
        self.flushes@
    }

    /// How often each column family was compacted, by the place of the
    /// family.
    pub closed spec fn compactions(&self) -> Seq<u64> {
        self.compactions@
    }

    /// How often a column family was flushed.
    pub open spec fn flushed(&self, cf: ColumnFamily) -> u64 {
        self.flushes()[cf.spec_index()]
    }

    /// How often a column family was compacted.
    pub open spec fn compacted(&self, cf: ColumnFamily) -> u64 {
        self.compactions()[cf.spec_index()]
    }

    /// Whether `after` has the definitions and the counts of flushes and
    /// compactions of this database.
    pub open spec fn same_upkeep(&self, after: &Db) -> bool {
        &&& after.definitions() == self.definitions()
        &&& after.flushes() == self.flushes()
        &&& after.compactions() == self.compactions()
    }

    /// A well-formed database has a count of flushes and of compactions
    /// for each column family.
    pub proof fn lemma_counts(&self)
        requires
            self.wf(),
        ensures
            self.flushes().len() == COLUMN_FAMILY_COUNT,
            self.compactions().len() == COLUMN_FAMILY_COUNT,
    {
    }

    /// The content of a database gives rows to every column family, and
    /// finitely many to each.
    pub proof fn lemma_view(&self)
        requires
            self.wf(),
        ensures
            forall|cf: ColumnFamily| #[trigger] self@.contains_key(cf),
            forall|cf: ColumnFamily| (#[trigger] self@[cf]).dom().finite(),
    {
        assert forall|cf: ColumnFamily| (#[trigger] self@[cf]).dom().finite() by {
            self.tables@[cf.spec_index()].lemma_keys();
        }
    }

    /// A database with an empty table for each column family.
    pub fn new(column_families: Vec<ColumnFamilyDefinition>) -> (db: Db)
        ensures
            db.wf(),
            db.definitions() == column_families@,
            db@ == empty_db(),
            forall|cf: ColumnFamily| db.flushed(cf) == 0 && db.compacted(cf) == 0,
    {
        let mut tables: Vec<Table> = Vec::new();
        let mut i: usize = 0;
        while i < COLUMN_FAMILY_COUNT
            invariant
                i <= COLUMN_FAMILY_COUNT,
                tables@.len() == i,
                forall|j: int|
                    0 <= j < i ==> (#[trigger] tables@[j]).wf() && tables@[j]@ == Map::<
                        Seq<u8>,
                        Seq<u8>,
                    >::empty(),
            decreases COLUMN_FAMILY_COUNT - i,
        {
            tables.push(Table::new());
            i = i + 1;
        }
        let db = Db {
            tables,
            definitions: column_families,
            flushes: no_counts(),
            compactions: no_counts(),
        };
        proof {
            assert(db@ =~= empty_db());
        }
        db
    }

    /// The table of a column family.
    pub fn table_ref(&self, cf: ColumnFamily) -> (table: &Table)
        requires
            self.wf(),
        ensures
            table.wf(),
            table@ == self@[cf],
    {
        &self.tables[cf.index()]
    }

    /// Puts a table in the place of that of a column family.
    pub fn replace_table(&mut self, cf: ColumnFamily, table: Table)
        requires
            old(self).wf(),
            table.wf(),
        ensures
            final(self).wf(),
            final(self)@ == old(self)@.insert(cf, table@),
            old(self).same_upkeep(final(self)),
    {
        let i: usize = cf.index();
        self.tables[i] = table;
        proof {
            assert(self@ =~= old(self)@.insert(cf, table@));
        }
    }

    /// The value of `key` in a column family.
    pub fn get(&self, cf: ColumnFamily, key: &[u8]) -> (r: Option<&Vec<u8>>)
        requires
            self.wf(),
        ensures
            r is Some == self@[cf].contains_key(key@),
            r matches Some(v) ==> v@ == self@[cf][key@],
    {
        self.tables[cf.index()].get(key)
    }

    /// Whether a column family holds `key`.
    pub fn contains_key(&self, cf: ColumnFamily, key: &[u8]) -> (b: bool)
        requires
            self.wf(),
        ensures
            b == self@[cf].contains_key(key@),
    {
        self.tables[cf.index()].contains_key(key)
    }

    /// Sets the value of `key` in a column family.
    pub fn insert(&mut self, cf: ColumnFamily, key: &[u8], value: &[u8])
        requires
            old(self).wf(),
        ensures
            final(self).wf(),
            final(self)@ == old(self)@.insert(cf, old(self)@[cf].insert(key@, value@)),
            old(self).same_upkeep(final(self)),
    {
        let i: usize = cf.index();
        self.tables[i].insert(key, value);
        proof {
            assert(self@ =~= old(self)@.insert(cf, old(self)@[cf].insert(key@, value@)));
        }
    }

    /// Adds `key` with an empty value to a column family.
    pub fn insert_empty(&mut self, cf: ColumnFamily, key: &[u8])
        requires
            old(self).wf(),
        ensures
            final(self).wf(),
            final(self)@ == old(self)@.insert(cf, old(self)@[cf].insert(key@, Seq::<u8>::empty())),
            old(self).same_upkeep(final(self)),
    {
        let i: usize = cf.index();
        self.tables[i].insert_empty(key);
        proof {
            assert(self@ =~= old(self)@.insert(
                cf,
                old(self)@[cf].insert(key@, Seq::<u8>::empty()),
            ));
        }
    }

    /// Removes `key` from a column family.
    pub fn remove(&mut self, cf: ColumnFamily, key: &[u8])
        requires
            old(self).wf(),
        ensures
            final(self).wf(),
            final(self)@ == old(self)@.insert(cf, old(self)@[cf].remove(key@)),
            old(self).same_upkeep(final(self)),
    {
        let i: usize = cf.index();
        self.tables[i].remove(key);
        proof {
            assert(self@ =~= old(self)@.insert(cf, old(self)@[cf].remove(key@)));
        }
    }

    /// The number of rows of a column family.
    pub fn len(&self, cf: ColumnFamily) -> (n: usize)
        requires
            self.wf(),
        ensures
            n == self@[cf].len(),
            self@[cf].dom().finite(),
    {
        self.tables[cf.index()].len()
    }

    /// Whether a column family has no row.
    pub fn is_empty(&self, cf: ColumnFamily) -> (b: bool)
        requires
            self.wf(),
        ensures
            b == (self@[cf].len() == 0),
            b == (self@[cf] == Map::<Seq<u8>, Seq<u8>>::empty()),
    {
        self.tables[cf.index()].is_empty()
    }

    /// The keys of a column family that start with `prefix`, in ascending
    /// order.
    pub fn scan_prefix(&self, cf: ColumnFamily, prefix: &[u8]) -> (keys: Vec<Vec<u8>>)
        requires
            self.wf(),
        ensures
            scan_result(self@[cf], prefix@, byte_strings(keys@)),
    {
        self.tables[cf.index()].scan_prefix(prefix)
    }

    /// All keys of a column family, in ascending order.
    pub fn iter(&self, cf: ColumnFamily) -> (keys: Vec<Vec<u8>>)
        requires
            self.wf(),
        ensures
            scan_result(self@[cf], Seq::<u8>::empty(), byte_strings(keys@)),
    {
        let prefix: Vec<u8> = Vec::new();
        self.tables[cf.index()].scan_prefix(prefix.as_slice())
    }

    /// A copy of the database as it is now.
    pub fn snapshot(&self) -> (copy: Db)
        requires
            self.wf(),
        ensures
            copy.wf(),
            copy@ == self@,
            self.same_upkeep(&copy),
    {
        let mut tables: Vec<Table> = Vec::new();
        let mut i: usize = 0;
        while i < COLUMN_FAMILY_COUNT
            invariant
                i <= COLUMN_FAMILY_COUNT,
                self.wf(),
                tables@.len() == i,
                forall|j: int|
                    0 <= j < i ==> (#[trigger] tables@[j]).wf() && tables@[j]@ == self.tables@[j]@,
            decreases COLUMN_FAMILY_COUNT - i,
        {
            tables.push(self.tables[i].snapshot());
            i = i + 1;
        }
        let mut definitions: Vec<ColumnFamilyDefinition> = Vec::new();
        let n: usize = self.definitions.len();
        let mut j: usize = 0;
        while j < n
            invariant
                j <= n,
                n == self.definitions@.len(),
                definitions@ == self.definitions@.subrange(0, j as int),
            decreases n - j,
        {
            definitions.push(self.definitions[j]);
            proof {
                assert(self.definitions@.subrange(0, j + 1) =~= self.definitions@.subrange(
                    0,
                    j as int,
                ).push(self.definitions@[j as int]));
            }
            j = j + 1;
        }
        proof {
            assert(self.definitions@.subrange(0, n as int) =~= self.definitions@);
        }
        let copy = Db {
            tables,
            definitions,
            flushes: copy_counts(&self.flushes),
            compactions: copy_counts(&self.compactions),
        };
        proof {
            assert(copy@ =~= self@);
        }
        copy
    }

    /// Adds the rows of a sorted file to a column family. Rows whose keys
    /// the column family holds already are left as they are.
    pub fn insert_sst_file(&mut self, cf: ColumnFamily, file: &SstFile)
        requires
            old(self).wf(),
            file.wf(),
        ensures
            final(self).wf(),
            final(self)@ == old(self)@.insert(cf, file@.union_prefer_right(old(self)@[cf])),
            old(self).same_upkeep(final(self)),
    {
        let i: usize = cf.index();
        self.tables[i].ingest(file);
        proof {
            assert(self@ =~= old(self)@.insert(cf, file@.union_prefer_right(old(self)@[cf])));
        }
    }

    /// How often a column family was flushed.
    pub fn flush_count(&self, cf: ColumnFamily) -> (n: u64)
        requires
            self.wf(),
        ensures
            n == self.flushed(cf),
    {
        self.flushes[cf.index()]
    }

    /// How often a column family was compacted.
    pub fn compaction_count(&self, cf: ColumnFamily) -> (n: u64)
        requires
            self.wf(),
        ensures
            n == self.compacted(cf),
    {
        self.compactions[cf.index()]
    }

    /// Flushes a column family: counts the flush. The rows are in memory
    /// and stay as they are.
    pub fn flush(&mut self, cf: ColumnFamily) -> (r: Result<(), crate::error::StorageError>)
        requires
            old(self).wf(),
        ensures
            final(self).wf(),
            r is Ok,
            final(self)@ == old(self)@,
            final(self).definitions() == old(self).definitions(),
            final(self).compactions() == old(self).compactions(),
            final(self).flushes() == old(self).flushes().update(
                cf.spec_index(),
                counted(old(self).flushed(cf)),
            ),
    {
        let i: usize = cf.index();
        let n: u64 = self.flushes[i];
        if n < u64::MAX {
            self.flushes[i] = n + 1;
        }
        proof {
            assert(self.flushes@ =~= old(self).flushes@.update(i as int, counted(n)));
            assert(self@ =~= old(self)@);
        }
        Ok(())
    }

    /// Compacts a column family: counts the compaction. The rows of a
    /// table are held once and in order, and stay as they are.
    pub fn compact(&mut self, cf: ColumnFamily) -> (r: Result<(), crate::error::StorageError>)
        requires
            old(self).wf(),
        ensures
            final(self).wf(),
            r is Ok,
            final(self)@ == old(self)@,
            final(self).definitions() == old(self).definitions(),
            final(self).flushes() == old(self).flushes(),
            final(self).compactions() == old(self).compactions().update(
                cf.spec_index(),
                counted(old(self).compacted(cf)),
            ),
    {
        let i: usize = cf.index();
        let n: u64 = self.compactions[i];
        if n < u64::MAX {
            self.compactions[i] = n + 1;
        }
        proof {
            assert(self.compactions@ =~= old(self).compactions@.update(i as int, counted(n)));
            assert(self@ =~= old(self)@);
        }
        Ok(())
    }
}

/// The content of a database without rows.
pub open spec fn empty_db() -> DbView {
    Map::total(|cf: ColumnFamily| Map::<Seq<u8>, Seq<u8>>::empty())
}

} // verus!
