//! The readings of one keyboard at one instant: a sparse map from key code
//! to intensity, kept as a vector sorted by code.
//!
//! The model of a buffer is a `Map<u16, u16>`. The sorted list behind it is
//! a function of that map (`sorted_entries`), so the order in which a buffer
//! hands out its entries, and which entries a capped copy keeps, are fixed
//! by the map alone.
use vstd::prelude::*;
use crate::intensity::FULL_SCALE;

verus! {

/// One pressed key.
#[derive(Clone, Copy, PartialEq, Eq, Structural, Debug)]
pub struct AnalogEntry {
    pub code: u16,
    /// In units of `1 / FULL_SCALE`; never zero inside a buffer.
    pub intensity: u16,
}

/// Whether some entry of `entries` carries `code`.
pub open spec fn has_code(entries: Seq<AnalogEntry>, code: u16) -> bool {
    exists|i: int| 0 <= i < entries.len() && (#[trigger] entries[i]).code == code
}

/// The position of an entry that carries `code`.
pub open spec fn index_of(entries: Seq<AnalogEntry>, code: u16) -> int {
    choose|i: int| 0 <= i < entries.len() && (#[trigger] entries[i]).code == code
}

/// The map that a list of entries stands for.
pub open spec fn entries_map(entries: Seq<AnalogEntry>) -> Map<u16, u16> {
    Map::new(
        |code: u16| has_code(entries, code),
        |code: u16| entries[index_of(entries, code)].intensity,
    )
}

/// The intensity that a map of readings gives for `code`: zero for a key at
/// rest.
pub open spec fn reading(readings: Map<u16, u16>, code: u16) -> u16 {
    if readings.contains_key(code) {
        readings[code]
    } else {
        0
    }
}

/// Strictly ascending codes, and every intensity in `1..=FULL_SCALE`.
pub open spec fn sorted_readings(entries: Seq<AnalogEntry>) -> bool {
    &&& forall|i: int, j: int|
        0 <= i < j < entries.len() ==> (#[trigger] entries[i]).code < (#[trigger] entries[j]).code
    &&& forall|i: int|
        0 <= i < entries.len() ==> 0 < (#[trigger] entries[i]).intensity <= FULL_SCALE
}

/// Whether a map can be the readings of a keyboard: finitely many keys, each
/// with an intensity in `1..=FULL_SCALE`. Stated as: it has a sorted list.
pub open spec fn valid_readings(readings: Map<u16, u16>) -> bool {
    exists|entries: Seq<AnalogEntry>|
        sorted_readings(entries) && #[trigger] entries_map(entries) == readings
}

/// The entries of a map of readings in ascending order of code.
pub open spec fn sorted_entries(readings: Map<u16, u16>) -> Seq<AnalogEntry> {
    choose|entries: Seq<AnalogEntry>|
        sorted_readings(entries) && #[trigger] entries_map(entries) == readings
}

/// How many readings a copy capped at `max_entries` keeps.
pub open spec fn capped_len(readings: Map<u16, u16>, max_entries: usize) -> int {
    if max_entries <= sorted_entries(readings).len() {
        max_entries as int
    } else {
        sorted_entries(readings).len() as int
    }
}

/// The readings of the `max_entries` lowest codes.
pub open spec fn lowest_readings(readings: Map<u16, u16>, max_entries: usize) -> Map<u16, u16> {
    entries_map(sorted_entries(readings).subrange(0, capped_len(readings, max_entries)))
}

/// In a sorted list every entry is found under its own code.
pub proof fn lemma_entry_is_mapped(entries: Seq<AnalogEntry>, i: int)
    requires
        sorted_readings(entries),
        0 <= i < entries.len(),
    ensures
        entries_map(entries).contains_key(entries[i].code),
        entries_map(entries)[entries[i].code] == entries[i].intensity,
        index_of(entries, entries[i].code) == i,
{
    let k = index_of(entries, entries[i].code);
    assert(entries[i].code == entries[i].code);
    if k < i {
        assert(entries[k].code < entries[i].code);
    } else if k > i {
        assert(entries[i].code < entries[k].code);
    }
}

/// Every key of the map comes from an entry of the list.
pub proof fn lemma_mapped_is_entry(entries: Seq<AnalogEntry>, code: u16)
    requires
        entries_map(entries).contains_key(code),
    ensures
        0 <= index_of(entries, code) < entries.len(),
        entries[index_of(entries, code)].code == code,
        entries[index_of(entries, code)].intensity == entries_map(entries)[code],
{
}

/// A sorted list of `n` entries stands for a map of `n` keys.
pub proof fn lemma_map_len(entries: Seq<AnalogEntry>)
    requires
        sorted_readings(entries),
    ensures
        entries_map(entries).dom().finite(),
        entries_map(entries).dom().len() == entries.len(),
    decreases entries.len(),
{
    if entries.len() == 0 {
        assert(entries_map(entries).dom() =~= Set::<u16>::empty());
    } else {
        let front = entries.drop_last();
        let last = entries.last();
        lemma_prefix_is_lowest(entries, entries.len() - 1);
        lemma_prefix_step(entries, entries.len() - 1);
        assert(entries.subrange(0, entries.len() as int) == entries);
        lemma_map_len(front);
        assert(!entries_map(front).dom().contains(last.code)) by {
            if has_code(front, last.code) {
                let k = index_of(front, last.code);
                assert(entries[k].code < entries[entries.len() - 1].code);
            }
        }
        assert(entries_map(entries).dom() =~= entries_map(front).dom().insert(last.code));
    }
}

/// The first `n` entries of a sorted list are the `n` lowest codes of its
/// map, with their intensities.
pub proof fn lemma_prefix_is_lowest(entries: Seq<AnalogEntry>, n: int)
    requires
        sorted_readings(entries),
        0 <= n <= entries.len(),
    ensures
        sorted_readings(entries.subrange(0, n)),
        entries_map(entries.subrange(0, n)).submap_of(entries_map(entries)),
        forall|low: u16, high: u16|
            #![trigger entries_map(entries.subrange(0, n)).contains_key(low), entries_map(entries).contains_key(high)]
            entries_map(entries.subrange(0, n)).contains_key(low) && entries_map(
                entries,
            ).contains_key(high) && !entries_map(entries.subrange(0, n)).contains_key(high) ==> low
                < high,
{
    let front = entries.subrange(0, n);
    assert(sorted_readings(front)) by {
        assert forall|i: int, j: int| 0 <= i < j < front.len() implies (#[trigger] front[i]).code
            < (#[trigger] front[j]).code by {
            assert(entries[i].code < entries[j].code);
        }
        assert forall|i: int| 0 <= i < front.len() implies 0 < (#[trigger] front[i]).intensity
            <= FULL_SCALE by {
            assert(0 < entries[i].intensity);
        }
    }
    assert forall|c: u16| #[trigger] entries_map(front).contains_key(c) implies entries_map(
        entries,
    ).contains_key(c) && entries_map(front)[c] == entries_map(entries)[c] by {
        let i = index_of(front, c);
        lemma_entry_is_mapped(front, i);
        assert(entries[i] == front[i]);
        lemma_entry_is_mapped(entries, i);
    }
    assert forall|low: u16, high: u16|
        entries_map(front).contains_key(low) && entries_map(entries).contains_key(high)
            && !entries_map(front).contains_key(high) implies low < high by {
        let i = index_of(front, low);
        let j = index_of(entries, high);
        assert(entries[i] == front[i]);
        if j < n {
            assert(front[j].code == high);
        }
        assert(entries[i].code < entries[j].code);
    }
}

/// Appending the next entry of a sorted list to a prefix of it adds that
/// entry to the prefix's map, under a code the prefix does not hold.
pub proof fn lemma_prefix_step(entries: Seq<AnalogEntry>, n: int)
    requires
        sorted_readings(entries),
        0 <= n < entries.len(),
    ensures
        !entries_map(entries.subrange(0, n)).contains_key(entries[n].code),
        entries_map(entries.subrange(0, n + 1)) == entries_map(entries.subrange(0, n)).insert(
            entries[n].code,
            entries[n].intensity,
        ),
{
    let front = entries.subrange(0, n);
    let next = entries.subrange(0, n + 1);
    lemma_prefix_is_lowest(entries, n);
    lemma_prefix_is_lowest(entries, n + 1);
    if has_code(front, entries[n].code) {
        let k = index_of(front, entries[n].code);
        assert(entries[k].code < entries[n].code);
    }
    assert forall|c: u16| has_code(next, c) <==> (c == entries[n].code || has_code(front, c)) by {
        if has_code(next, c) {
            let i = index_of(next, c);
            if i < n {
                assert(front[i].code == c);
            }
        }
        if has_code(front, c) {
            let i = index_of(front, c);
            assert(next[i].code == c);
        }
        if c == entries[n].code {
            assert(next[n].code == c);
        }
    }
    assert forall|c: u16| has_code(next, c) implies entries_map(next)[c] == entries_map(front).insert(
        entries[n].code,
        entries[n].intensity,
    )[c] by {
        let i = index_of(next, c);
        lemma_entry_is_mapped(next, i);
        if i < n {
            assert(front[i] == next[i]);
            lemma_entry_is_mapped(front, i);
        }
    }
    assert(entries_map(next) =~= entries_map(front).insert(entries[n].code, entries[n].intensity));
}

/// Two sorted lists that stand for the same map are the same list.
pub proof fn lemma_sorted_list_unique(a: Seq<AnalogEntry>, b: Seq<AnalogEntry>)
    requires
        sorted_readings(a),
        sorted_readings(b),
        entries_map(a) == entries_map(b),
    ensures
        a == b,
    decreases a.len(),
{
    lemma_map_len(a);
    lemma_map_len(b);
    if a.len() > 0 {
        let n = a.len() - 1;
        lemma_entry_is_mapped(a, n);
        lemma_entry_is_mapped(b, n);
        let in_b = index_of(b, a[n].code);
        let in_a = index_of(a, b[n].code);
        lemma_mapped_is_entry(b, a[n].code);
        lemma_mapped_is_entry(a, b[n].code);
        assert(a[n].code == b[n].code) by {
            if in_b < n {
                assert(b[in_b].code < b[n].code);
            }
            if in_a < n {
                assert(a[in_a].code < a[n].code);
            }
        }
        assert(a[n] == b[n]);
        lemma_prefix_is_lowest(a, n);
        lemma_prefix_is_lowest(b, n);
        lemma_prefix_step(a, n);
        lemma_prefix_step(b, n);
        assert(a.subrange(0, n + 1) == a);
        assert(b.subrange(0, n + 1) == b);
        assert(entries_map(a.subrange(0, n)) =~= entries_map(a).remove(a[n].code));
        assert(entries_map(b.subrange(0, n)) =~= entries_map(b).remove(b[n].code));
        lemma_sorted_list_unique(a.subrange(0, n), b.subrange(0, n));
        assert(a =~= a.subrange(0, n).push(a[n]));
        assert(b =~= b.subrange(0, n).push(b[n]));
    } else {
        assert(a =~= b);
    }
}

/// A sorted list is the sorted list of its own map.
pub proof fn lemma_sorted_entries(entries: Seq<AnalogEntry>)
    requires
        sorted_readings(entries),
    ensures
        valid_readings(entries_map(entries)),
        sorted_entries(entries_map(entries)) == entries,
{
    lemma_sorted_list_unique(sorted_entries(entries_map(entries)), entries);
}

/// What holds of every map of readings: finitely many keys, as many as its
/// sorted list is long; each listed key is pressed; and the list stands for
/// the map.
pub proof fn lemma_valid_readings(readings: Map<u16, u16>)
    requires
        valid_readings(readings),
    ensures
        sorted_readings(sorted_entries(readings)),
        entries_map(sorted_entries(readings)) == readings,
        readings.dom().finite(),
        readings.dom().len() == sorted_entries(readings).len(),
        forall|code: u16| #[trigger]
            readings.contains_key(code) ==> 0 < readings[code] <= FULL_SCALE,
{
    let entries = sorted_entries(readings);
    lemma_map_len(entries);
    assert forall|code: u16| #[trigger] readings.contains_key(code) implies 0 < readings[code]
        <= FULL_SCALE by {
        lemma_mapped_is_entry(entries, code);
        assert(0 < entries[index_of(entries, code)].intensity <= FULL_SCALE);
    }
}

/// A capped copy holds `min(max_entries, n)` of the `n` readings, each as it
/// was, and every code it leaves out is above every code it keeps.
pub proof fn lemma_lowest_readings(readings: Map<u16, u16>, max_entries: usize)
    requires
        valid_readings(readings),
    ensures
        valid_readings(lowest_readings(readings, max_entries)),
        lowest_readings(readings, max_entries).submap_of(readings),
        lowest_readings(readings, max_entries).dom().len() == if max_entries
            <= readings.dom().len() {
            max_entries as nat
        } else {
            readings.dom().len()
        },
        max_entries >= readings.dom().len() ==> lowest_readings(readings, max_entries) == readings,
        forall|low: u16, high: u16|
            #![trigger lowest_readings(readings, max_entries).contains_key(low), readings.contains_key(high)]
            lowest_readings(readings, max_entries).contains_key(low) && readings.contains_key(high)
                && !lowest_readings(readings, max_entries).contains_key(high) ==> low < high,
{
    let entries = sorted_entries(readings);
    let n = capped_len(readings, max_entries);
    lemma_valid_readings(readings);
    lemma_prefix_is_lowest(entries, n);
    lemma_map_len(entries.subrange(0, n));
    if max_entries >= readings.dom().len() {
        assert(entries.subrange(0, n) == entries);
    }
}

/// Replacing the intensity of an entry keeps the list sorted and rewrites
/// one key of the map.
proof fn lemma_replace_entry(entries: Seq<AnalogEntry>, p: int, intensity: u16)
    requires
        sorted_readings(entries),
        0 <= p < entries.len(),
        0 < intensity <= FULL_SCALE,
    ensures
        has_code(entries, entries[p].code),
        sorted_readings(entries.update(p, AnalogEntry { code: entries[p].code, intensity })),
        entries_map(entries.update(p, AnalogEntry { code: entries[p].code, intensity }))
            == entries_map(entries).insert(entries[p].code, intensity),
{
    let code = entries[p].code;
    let after = entries.update(p, AnalogEntry { code, intensity });
    assert(sorted_readings(after)) by {
        assert forall|i: int, j: int| 0 <= i < j < after.len() implies (#[trigger] after[i]).code
            < (#[trigger] after[j]).code by {
            assert(entries[i].code < entries[j].code);
        }
        assert forall|i: int| 0 <= i < after.len() implies 0 < (#[trigger] after[i]).intensity
            <= FULL_SCALE by {
            assert(0 < entries[i].intensity <= FULL_SCALE);
        }
    }
    assert(entries[p].code == code);
    assert forall|c: u16| has_code(after, c) <==> (c == code || has_code(entries, c)) by {
        if has_code(after, c) {
            let i = index_of(after, c);
            assert(entries[i].code == c);
        }
        if has_code(entries, c) {
            let i = index_of(entries, c);
            assert(after[i].code == c);
        }
        if c == code {
            assert(after[p].code == c);
        }
    }
    assert forall|c: u16| has_code(after, c) implies entries_map(after)[c] == entries_map(
        entries,
    ).insert(code, intensity)[c] by {
        let i = index_of(after, c);
        lemma_entry_is_mapped(after, i);
        if c != code {
            assert(i != p);
            lemma_entry_is_mapped(entries, i);
        }
    }
    assert(entries_map(after) =~= entries_map(entries).insert(code, intensity));
}

/// Inserting a new code at its place keeps the list sorted and adds one key
/// to the map.
proof fn lemma_insert_entry(entries: Seq<AnalogEntry>, p: int, entry: AnalogEntry)
    requires
        sorted_readings(entries),
        0 <= p <= entries.len(),
        0 < entry.intensity <= FULL_SCALE,
        forall|k: int| 0 <= k < p ==> (#[trigger] entries[k]).code < entry.code,
        p < entries.len() ==> entry.code < entries[p].code,
    ensures
        !has_code(entries, entry.code),
        sorted_readings(entries.insert(p, entry)),
        entries_map(entries.insert(p, entry)) == entries_map(entries).insert(
            entry.code,
            entry.intensity,
        ),
{
    let after = entries.insert(p, entry);
    assert forall|k: int| p <= k < entries.len() implies entry.code < (#[trigger] entries[k]).code by {
        if k > p {
            assert(entries[p].code < entries[k].code);
        }
    }
    assert(!has_code(entries, entry.code)) by {
        if has_code(entries, entry.code) {
            let k = index_of(entries, entry.code);
            if k < p {
                assert(entries[k].code < entry.code);
            } else {
                assert(entry.code < entries[k].code);
            }
        }
    }
    assert forall|i: int| 0 <= i < after.len() implies (#[trigger] after[i]) == (if i < p {
        entries[i]
    } else if i == p {
        entry
    } else {
        entries[i - 1]
    }) by {}
    assert(sorted_readings(after)) by {
        assert forall|i: int, j: int| 0 <= i < j < after.len() implies (#[trigger] after[i]).code
            < (#[trigger] after[j]).code by {
            if i < p && j > p {
                assert(entries[i].code < entry.code);
                assert(entry.code < entries[j - 1].code);
            } else if i < p && j < p {
                assert(entries[i].code < entries[j].code);
            } else if i > p {
                assert(entries[i - 1].code < entries[j - 1].code);
            } else if i == p {
                assert(entry.code < entries[j - 1].code);
            } else {
                assert(entries[i].code < entry.code);
            }
        }
        assert forall|i: int| 0 <= i < after.len() implies 0 < (#[trigger] after[i]).intensity
            <= FULL_SCALE by {
            if i < p {
                assert(0 < entries[i].intensity);
            } else if i > p {
                assert(0 < entries[i - 1].intensity);
            }
        }
    }
    assert forall|c: u16| has_code(after, c) <==> (c == entry.code || has_code(entries, c)) by {
        if has_code(after, c) {
            let i = index_of(after, c);
            if i < p {
                assert(entries[i].code == c);
            } else if i > p {
                assert(entries[i - 1].code == c);
            }
        }
        if has_code(entries, c) {
            let i = index_of(entries, c);
            if i < p {
                assert(after[i].code == c);
            } else {
                assert(after[i + 1].code == c);
            }
        }
        if c == entry.code {
            assert(after[p].code == c);
        }
    }
    assert forall|c: u16| has_code(after, c) implies entries_map(after)[c] == entries_map(
        entries,
    ).insert(entry.code, entry.intensity)[c] by {
        let i = index_of(after, c);
        lemma_entry_is_mapped(after, i);
        if i < p {
            lemma_entry_is_mapped(entries, i);
        } else if i > p {
            lemma_entry_is_mapped(entries, i - 1);
        }
    }
    assert(entries_map(after) =~= entries_map(entries).insert(entry.code, entry.intensity));
}

/// Writes `intensity` under `code`, keeping the list sorted.
pub(crate) fn upsert(entries: &mut Vec<AnalogEntry>, code: u16, intensity: u16)
    requires
        sorted_readings(old(entries)@),
        0 < intensity <= FULL_SCALE,
    ensures
        sorted_readings(final(entries)@),
        entries_map(final(entries)@) == entries_map(old(entries)@).insert(code, intensity),
{
    let n = entries.len();
    let mut p: usize = 0;
    while p < n && entries[p].code < code
        invariant
            n == entries@.len(),
            entries@ == old(entries)@,
            0 <= p <= n,
            forall|k: int| 0 <= k < p ==> (#[trigger] entries@[k]).code < code,
        decreases n - p,
    {
        p += 1;
    }
    let entry = AnalogEntry { code, intensity };
    if p < n && entries[p].code == code {
        proof {
            lemma_replace_entry(entries@, p as int, intensity);
        }
        entries.set(p, entry);
    } else {
        proof {
            lemma_insert_entry(entries@, p as int, entry);
        }
        entries.insert(p, entry);
    }
}

/// A sparse map from key code to intensity. Keys at rest are absent.
pub struct AnalogBuffer {
    entries: Vec<AnalogEntry>,
}

impl View for AnalogBuffer {
    type V = Map<u16, u16>;

    closed spec fn view(&self) -> Map<u16, u16> {
        entries_map(self.entries@)
    }
}

impl AnalogBuffer {
    /// The invariant of the representation: the list is sorted.
    #[verifier::type_invariant]
    pub closed spec fn wf(self) -> bool {
        sorted_readings(self.entries@)
    }

    /// A buffer with no key pressed.
    pub fn new() -> (buffer: Self)
        ensures
            buffer@ == Map::<u16, u16>::empty(),
    {
        let buffer = AnalogBuffer { entries: Vec::new() };
        assert(buffer@ =~= Map::<u16, u16>::empty());
        buffer
    }

    /// Wraps a list that is already sorted.
    pub(crate) fn from_sorted(entries: Vec<AnalogEntry>) -> (buffer: Self)
        requires
            sorted_readings(entries@),
        ensures
            buffer@ == entries_map(entries@),
    {
        AnalogBuffer { entries }
    }

    /// How many keys are pressed.
    pub fn len(&self) -> (n: usize)
        ensures
            n == self@.dom().len(),
    {
        proof {
            use_type_invariant(self);
            lemma_map_len(self.entries@);
        }
        self.entries.len()
    }

    /// Whether no key is pressed.
    pub fn is_empty(&self) -> (empty: bool)
        ensures
            empty == (self@ == Map::<u16, u16>::empty()),
    {
        proof {
            use_type_invariant(self);
            lemma_map_len(self.entries@);
            if self.entries@.len() == 0 {
                assert(self@ =~= Map::<u16, u16>::empty());
            }
        }
        self.entries.len() == 0
    }

    /// The intensity recorded for `code`, if the key is pressed.
    pub fn get(&self, code: u16) -> (found: Option<u16>)
        ensures
            found == if self@.contains_key(code) {
                Some(self@[code])
            } else {
                None
            },
    {
        proof {
            use_type_invariant(self);
        }
        let n = self.entries.len();
        let mut i: usize = 0;
        while i < n
            invariant
                n == self.entries@.len(),
                0 <= i <= n,
                forall|k: int| 0 <= k < i ==> (#[trigger] self.entries@[k]).code != code,
                sorted_readings(self.entries@),
            decreases n - i,
        {
            if self.entries[i].code == code {
                proof {
                    lemma_entry_is_mapped(self.entries@, i as int);
                }
                return Some(self.entries[i].intensity);
            }
            i += 1;
        }
        None
    }

    /// The intensity of `code`, zero for a key at rest.
    pub fn value(&self, code: u16) -> (units: u16)
        ensures
            units == reading(self@, code),
    {
        match self.get(code) {
            Some(units) => units,
            None => 0,
        }
    }

    /// The entries in ascending order of code.
    pub fn to_vec(&self) -> (list: Vec<AnalogEntry>)
        ensures
            list@ == sorted_entries(self@),
            sorted_readings(list@),
            entries_map(list@) == self@,
    {
        proof {
            use_type_invariant(self);
            lemma_sorted_entries(self.entries@);
        }
        let n = self.entries.len();
        let mut list: Vec<AnalogEntry> = Vec::new();
        let mut i: usize = 0;
        while i < n
            invariant
                n == self.entries@.len(),
                0 <= i <= n,
                list@ == self.entries@.subrange(0, i as int),
            decreases n - i,
        {
            list.push(self.entries[i]);
            assert(list@ == self.entries@.subrange(0, i + 1));
            i += 1;
        }
        assert(list@ == self.entries@);
        list
    }

    /// A copy cut down to the `max_entries` lowest codes.
    pub fn capped(&self, max_entries: usize) -> (cut: Self)
        ensures
            cut@ == lowest_readings(self@, max_entries),
    {
        proof {
            use_type_invariant(self);
            lemma_sorted_entries(self.entries@);
        }
        let n = if max_entries <= self.entries.len() {
            max_entries
        } else {
            self.entries.len()
        };
        let mut list: Vec<AnalogEntry> = Vec::new();
        let mut i: usize = 0;
        while i < n
            invariant
                n <= self.entries@.len(),
                0 <= i <= n,
                list@ == self.entries@.subrange(0, i as int),
            decreases n - i,
        {
            list.push(self.entries[i]);
            assert(list@ == self.entries@.subrange(0, i + 1));
            i += 1;
        }
        proof {
            lemma_prefix_is_lowest(self.entries@, n as int);
        }
        AnalogBuffer { entries: list }
    }

    /// Adds every entry of `other`; where both hold a code, the intensity of
    /// `other` replaces the one held.
    pub fn merge(&mut self, other: &AnalogBuffer)
        ensures
            final(self)@ == old(self)@.union_prefer_right(other@),
    {
        proof {
            use_type_invariant(&*self);
            use_type_invariant(other);
        }
        let ghost before = self@;
        let mut entries: Vec<AnalogEntry> = Vec::new();
        std::mem::swap(&mut entries, &mut self.entries);
        let n = other.entries.len();
        let mut i: usize = 0;
        assert(entries_map(other.entries@.subrange(0, 0)) =~= Map::<u16, u16>::empty());
        assert(before.union_prefer_right(Map::<u16, u16>::empty()) =~= before);
        while i < n
            invariant
                n == other.entries@.len(),
                0 <= i <= n,
                sorted_readings(other.entries@),
                sorted_readings(entries@),
                entries_map(entries@) == before.union_prefer_right(
                    entries_map(other.entries@.subrange(0, i as int)),
                ),
            decreases n - i,
        {
            let entry = other.entries[i];
            proof {
                assert(0 < other.entries@[i as int].intensity <= FULL_SCALE);
                lemma_prefix_step(other.entries@, i as int);
                let seen = entries_map(other.entries@.subrange(0, i as int));
                assert(before.union_prefer_right(seen.insert(entry.code, entry.intensity))
                    =~= before.union_prefer_right(seen).insert(entry.code, entry.intensity));
            }
            upsert(&mut entries, entry.code, entry.intensity);
            i += 1;
        }
        assert(other.entries@.subrange(0, n as int) == other.entries@);
        self.entries = entries;
    }
}

impl Clone for AnalogBuffer {
    /// An independent copy with the same readings.
    fn clone(&self) -> (twin: Self)
        ensures
            twin@ == self@,
    {
        proof {
            use_type_invariant(self);
            lemma_sorted_entries(self.entries@);
        }
        AnalogBuffer { entries: self.to_vec() }
    }
}

/// The model of a well-formed buffer is a map of readings.
pub proof fn lemma_buffer_model(buffer: AnalogBuffer)
    requires
        buffer.wf(),
    ensures
        valid_readings(buffer@),
{
    lemma_sorted_entries(buffer.entries@);
}

/// Merging maps of readings gives a map of readings.
pub proof fn lemma_union_valid(left: Map<u16, u16>, right: Map<u16, u16>)
    requires
        valid_readings(left),
        valid_readings(right),
    ensures
        valid_readings(left.union_prefer_right(right)),
    decreases sorted_entries(right).len(),
{
    lemma_valid_readings(left);
    lemma_valid_readings(right);
    let entries = sorted_entries(right);
    if entries.len() == 0 {
        assert(right =~= Map::<u16, u16>::empty());
        assert(left.union_prefer_right(right) =~= left);
    } else {
        let n = entries.len() - 1;
        let front = entries.subrange(0, n);
        lemma_prefix_is_lowest(entries, n);
        lemma_prefix_step(entries, n);
        assert(entries.subrange(0, n + 1) == entries);
        lemma_sorted_entries(front);
        lemma_union_valid(left, entries_map(front));
        let partial = left.union_prefer_right(entries_map(front));
        let held = sorted_entries(partial);
        lemma_valid_readings(partial);
        lemma_upsert_valid(held, entries[n]);
        assert(left.union_prefer_right(right) =~= partial.insert(
            entries[n].code,
            entries[n].intensity,
        ));
    }
}

/// Writing one reading into a map of readings gives a map of readings.
proof fn lemma_upsert_valid(entries: Seq<AnalogEntry>, entry: AnalogEntry)
    requires
        sorted_readings(entries),
        0 < entry.intensity <= FULL_SCALE,
    ensures
        valid_readings(entries_map(entries).insert(entry.code, entry.intensity)),
{
    let p = first_not_below(entries, entry.code, 0);
    lemma_first_not_below(entries, entry.code, 0);
    if p < entries.len() && entries[p].code == entry.code {
        lemma_replace_entry(entries, p, entry.intensity);
        lemma_sorted_entries(entries.update(p, entry));
    } else {
        lemma_insert_entry(entries, p, entry);
        lemma_sorted_entries(entries.insert(p, entry));
    }
}

/// The first position at or after `from` whose code is not below `code`.
spec fn first_not_below(entries: Seq<AnalogEntry>, code: u16, from: int) -> int
    decreases entries.len() - from,
{
    if 0 <= from < entries.len() && entries[from].code < code {
        first_not_below(entries, code, from + 1)
    } else {
        from
    }
}

/// Every entry before that position is below `code`, and the entry at it,
/// if there is one, is not.
proof fn lemma_first_not_below(entries: Seq<AnalogEntry>, code: u16, from: int)
    requires
        sorted_readings(entries),
        0 <= from <= entries.len(),
        forall|k: int| 0 <= k < from ==> (#[trigger] entries[k]).code < code,
    ensures
        from <= first_not_below(entries, code, from) <= entries.len(),
        forall|k: int|
            0 <= k < first_not_below(entries, code, from) ==> (#[trigger] entries[k]).code < code,
        first_not_below(entries, code, from) < entries.len() ==> code <= entries[first_not_below(
            entries,
            code,
            from,
        )].code,
    decreases entries.len() - from,
{
    if from < entries.len() && entries[from].code < code {
        lemma_first_not_below(entries, code, from + 1);
    }
}

} // verus!
