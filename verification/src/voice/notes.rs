use vstd::prelude::*;

verus! {

/// Most keys tracked at once; a key pressed beyond it takes the place of the oldest.
pub const MAX_NOTES: usize = 128;

/// A MIDI key that is currently held.
#[derive(Debug, Clone, Copy, PartialEq, Eq, Default)]
pub struct MidiNote {
    pub midi_index: u8,
    /// IEEE-754 bit pattern of the key velocity, carried unchanged.
    pub velocity_bits: u32,
    /// How many keys were pressed after this one.
    pub age: u32,
    pub id: u64,
    /// Whether some voice currently sounds this key.
    pub has_voice: bool,
}

/// The note one key press later: one step older, otherwise the same.
pub open spec fn aged_note(n: MidiNote) -> MidiNote {
    MidiNote { age: (n.age + 1) as u32, ..n }
}

pub open spec fn aged_notes(s: Seq<MidiNote>) -> Seq<MidiNote> {
    s.map_values(|n: MidiNote| aged_note(n))
}

pub open spec fn ages_distinct(s: Seq<MidiNote>) -> bool {
    forall|i: int, j: int|
        0 <= i < s.len() && 0 <= j < s.len() && i != j ==> #[trigger] s[i].age != #[trigger] s[j].age
}

pub open spec fn ids_distinct(s: Seq<MidiNote>) -> bool {
    forall|i: int, j: int|
        0 <= i < s.len() && 0 <= j < s.len() && i != j ==> #[trigger] s[i].id != #[trigger] s[j].id
}

pub open spec fn ages_ascending(s: Seq<MidiNote>) -> bool {
    forall|i: int, j: int| 0 <= i < j < s.len() ==> #[trigger] s[i].age < #[trigger] s[j].age
}

pub open spec fn ages_below_max(s: Seq<MidiNote>) -> bool {
    forall|i: int| 0 <= i < s.len() ==> #[trigger] s[i].age < u32::MAX
}

/// `k` is the first position of `s` whose note satisfies `p`.
pub open spec fn is_first_where(s: Seq<MidiNote>, k: int, p: spec_fn(MidiNote) -> bool) -> bool {
    &&& 0 <= k < s.len()
    &&& p(s[k])
    &&& forall|j: int| 0 <= j < k ==> !p(#[trigger] s[j])
}

/// The first position of `s` whose note satisfies `p`, if any.
pub open spec fn first_where(s: Seq<MidiNote>, p: spec_fn(MidiNote) -> bool) -> Option<int> {
    if exists|k: int| is_first_where(s, k, p) {
        Some(choose|k: int| is_first_where(s, k, p))
    } else {
        None
    }
}

pub open spec fn with_id(id: u64) -> spec_fn(MidiNote) -> bool {
    |n: MidiNote| n.id == id
}

pub open spec fn with_key(midi_index: u8) -> spec_fn(MidiNote) -> bool {
    |n: MidiNote| n.midi_index == midi_index
}

pub open spec fn without_key(midi_index: u8) -> spec_fn(MidiNote) -> bool {
    |n: MidiNote| n.midi_index != midi_index
}

/// `k` holds the youngest note without a voice; among equally young ones, the first.
pub open spec fn is_newest_empty(s: Seq<MidiNote>, k: int) -> bool {
    &&& 0 <= k < s.len()
    &&& !s[k].has_voice
    &&& forall|j: int| 0 <= j < s.len() && !s[j].has_voice ==> s[k].age <= #[trigger] s[j].age
    &&& forall|j: int| 0 <= j < k && !s[j].has_voice ==> s[k].age < #[trigger] s[j].age
}

pub open spec fn newest_empty(s: Seq<MidiNote>) -> Option<int> {
    if exists|k: int| is_newest_empty(s, k) {
        Some(choose|k: int| is_newest_empty(s, k))
    } else {
        None
    }
}

pub proof fn lemma_first_where_is(s: Seq<MidiNote>, k: int, p: spec_fn(MidiNote) -> bool)
    requires
        is_first_where(s, k, p),
    ensures
        first_where(s, p) == Some(k),
{
    let c = choose|c: int| is_first_where(s, c, p);
    assert(is_first_where(s, c, p));
    if c < k {
        assert(!p(s[c]));
    } else if k < c {
        assert(!p(s[k]));
    }
}

pub proof fn lemma_first_where_none(s: Seq<MidiNote>, p: spec_fn(MidiNote) -> bool)
    requires
        forall|j: int| 0 <= j < s.len() ==> !p(#[trigger] s[j]),
    ensures
        first_where(s, p) is None,
{
    if exists|k: int| is_first_where(s, k, p) {
        let k = choose|k: int| is_first_where(s, k, p);
        assert(p(s[k]));
    }
}

pub proof fn lemma_newest_empty_is(s: Seq<MidiNote>, k: int)
    requires
        is_newest_empty(s, k),
    ensures
        newest_empty(s) == Some(k),
{
    let c = choose|c: int| is_newest_empty(s, c);
    assert(is_newest_empty(s, c));
    if c < k {
        assert(s[k].age <= s[c].age);
        assert(s[k].age < s[c].age);
        assert(s[c].age <= s[k].age);
    } else if k < c {
        assert(s[c].age < s[k].age);
        assert(s[k].age <= s[c].age);
    }
}

/// Removing one note keeps the ages apart.
proof fn lemma_remove_keeps_distinct(s: Seq<MidiNote>, k: int)
    requires
        0 <= k < s.len(),
    ensures
        ages_distinct(s) ==> ages_distinct(s.remove(k)),
        ids_distinct(s) ==> ids_distinct(s.remove(k)),
{
    let r = s.remove(k);
    if ages_distinct(s) {
        assert forall|i: int, j: int| 0 <= i < r.len() && 0 <= j < r.len() && i != j implies #[trigger] r[i].age
            != #[trigger] r[j].age by {
            let si = if i < k { i } else { i + 1 };
            let sj = if j < k { j } else { j + 1 };
            assert(r[i] == s[si]);
            assert(r[j] == s[sj]);
        }
    }
    if ids_distinct(s) {
        assert forall|i: int, j: int| 0 <= i < r.len() && 0 <= j < r.len() && i != j implies #[trigger] r[i].id
            != #[trigger] r[j].id by {
            let si = if i < k { i } else { i + 1 };
            let sj = if j < k { j } else { j + 1 };
            assert(r[i] == s[si]);
            assert(r[j] == s[sj]);
        }
    }
}

/// Swapping two notes keeps the contents and the distinct ages.
proof fn lemma_swap_keeps(s: Seq<MidiNote>, i: int, m: int)
    requires
        0 <= i < s.len(),
        0 <= m < s.len(),
        ages_distinct(s),
    ensures
        ({
            let t = s.update(i, s[m]).update(m, s[i]);
            &&& t.len() == s.len()
            &&& ages_distinct(t)
            &&& forall|x: MidiNote| t.contains(x) <==> s.contains(x)
        }),
{
    let t = s.update(i, s[m]).update(m, s[i]);
    let perm = |k: int|
        if k == m {
            i
        } else if k == i {
            m
        } else {
            k
        };
    assert forall|k: int| 0 <= k < t.len() implies #[trigger] t[k] == s[perm(k)] by {}
    assert forall|a: int, b: int| 0 <= a < t.len() && 0 <= b < t.len() && a != b implies #[trigger] t[a].age
        != #[trigger] t[b].age by {
        assert(t[a] == s[perm(a)]);
        assert(t[b] == s[perm(b)]);
    }
    assert forall|x: MidiNote| t.contains(x) <==> s.contains(x) by {
        if t.contains(x) {
            let k = choose|k: int| 0 <= k < t.len() && t[k] == x;
            assert(s[perm(k)] == x);
        }
        if s.contains(x) {
            let k = choose|k: int| 0 <= k < s.len() && s[k] == x;
            assert(t[perm(k)] == x);
        }
    }
}

/// Orders the notes by ascending age.
fn sort_by_age(v: &mut Vec<MidiNote>)
    requires
        ages_distinct(old(v)@),
    ensures
        final(v)@.len() == old(v)@.len(),
        ages_distinct(final(v)@),
        ages_ascending(final(v)@),
        forall|x: MidiNote| final(v)@.contains(x) <==> old(v)@.contains(x),
{
    let n = v.len();
    let mut i: usize = 0;
    while i < n
        invariant
            n == v@.len(),
            0 <= i <= n,
            ages_distinct(v@),
            forall|x: MidiNote| v@.contains(x) <==> old(v)@.contains(x),
            forall|a: int, b: int| 0 <= a < b < i ==> #[trigger] v@[a].age < #[trigger] v@[b].age,
            forall|a: int, b: int| 0 <= a < i <= b < n ==> #[trigger] v@[a].age < #[trigger] v@[b].age,
        decreases n - i,
    {
        let mut m: usize = i;
        let mut j: usize = i + 1;
        while j < n
            invariant
                n == v@.len(),
                i < n,
                i <= m < n,
                i < j <= n,
                forall|k: int| i <= k < j ==> v@[m as int].age <= #[trigger] v@[k].age,
            decreases n - j,
        {
            if v[j].age < v[m].age {
                m = j;
            }
            j = j + 1;
        }
        let a = v[i];
        let b = v[m];
        proof {
            lemma_swap_keeps(v@, i as int, m as int);
        }
        let ghost before = v@;
        v.set(i, b);
        v.set(m, a);
        assert(v@ == before.update(i as int, before[m as int]).update(m as int, before[i as int]));
        assert forall|x: int, y: int| 0 <= x < y < i + 1 implies #[trigger] v@[x].age < #[trigger] v@[y].age by {
            if y < i {
            } else {
                assert(v@[y] == before[m as int]);
                assert(v@[x] == before[x]);
            }
        }
        assert forall|x: int, y: int| 0 <= x < i + 1 <= y < n implies #[trigger] v@[x].age
            < #[trigger] v@[y].age by {
            if x < i {
                if y == m {
                    assert(v@[y] == before[i as int]);
                } else {
                    assert(v@[y] == before[y]);
                }
            } else {
                assert(v@[x] == before[m as int]);
                if y == m {
                    assert(v@[y] == before[i as int]);
                    assert(before[m as int].age <= before[i as int].age);
                } else {
                    assert(v@[y] == before[y]);
                    assert(before[m as int].age <= before[y].age);
                }
                assert(v@[x].age != v@[y].age);
            }
        }
        i = i + 1;
    }
}

/// `after` is `before` once `note` was pressed: every note one step older and
/// `note` at the end; when `before` was full, the rest in ascending age without the
/// oldest.
pub open spec fn note_added(before: Seq<MidiNote>, after: Seq<MidiNote>, note: MidiNote) -> bool {
    let aged = aged_notes(before);
    if before.len() < MAX_NOTES {
        after == aged.push(note)
    } else {
        &&& after.len() == MAX_NOTES
        &&& after.last() == note
        &&& ages_ascending(after.drop_last())
        &&& forall|x: MidiNote|
            #![trigger after.drop_last().contains(x)]
            after.drop_last().contains(x) <==> (aged.contains(x) && exists|j: int|
                0 <= j < aged.len() && x.age < #[trigger] aged[j].age)
    }
}

/// Pressing a key under an id above every held id keeps the ids unique and issued.
proof fn lemma_fresh_id_keeps_ids(before: Seq<MidiNote>, after: Seq<MidiNote>, note: MidiNote, counter: u64)
    requires
        note_added(before, after, note),
        note.id == counter + 1,
        before.len() <= MAX_NOTES,
        ages_distinct(after),
    ensures
        ids_distinct(before) && (forall|i: int| 0 <= i < before.len() ==> #[trigger] before[i].id <= counter)
            ==> ids_distinct(after) && (forall|i: int| 0 <= i < after.len() ==> #[trigger] after[i].id <= note.id),
{
    let aged = aged_notes(before);
    if ids_distinct(before) && (forall|i: int| 0 <= i < before.len() ==> #[trigger] before[i].id <= counter) {
        assert forall|x: MidiNote| aged.contains(x) implies x.id <= counter by {
            let q = choose|q: int| 0 <= q < aged.len() && aged[q] == x;
            assert(before[q].id <= counter);
        }
        assert forall|i: int| 0 <= i < after.len() - 1 implies after.contains(#[trigger] after[i]) && aged.contains(
            after[i],
        ) by {
            if before.len() < MAX_NOTES {
                assert(after[i] == aged[i]);
            } else {
                assert(after.drop_last()[i] == after[i]);
                assert(after.drop_last().contains(after[i]));
            }
        }
        assert(after.last() == note);
        assert forall|i: int| 0 <= i < after.len() implies #[trigger] after[i].id <= note.id by {
            if i < after.len() - 1 {
                assert(aged.contains(after[i]));
            }
        }
        assert forall|a: int, b: int| 0 <= a < after.len() && 0 <= b < after.len() && a != b implies #[trigger] after[a].id
            != #[trigger] after[b].id by {
            if a < after.len() - 1 && b < after.len() - 1 {
                assert(aged.contains(after[a]));
                assert(aged.contains(after[b]));
                let p = choose|p: int| 0 <= p < aged.len() && aged[p] == after[a];
                let q = choose|q: int| 0 <= q < aged.len() && aged[q] == after[b];
                if p == q {
                    assert(after[a].age == after[b].age);
                } else {
                    assert(before[p].id != before[q].id);
                }
            } else if a < after.len() - 1 {
                assert(aged.contains(after[a]));
            } else if b < after.len() - 1 {
                assert(aged.contains(after[b]));
            }
        }
    }
}

proof fn lemma_first_index_exists(s: Seq<MidiNote>, i: int, p: spec_fn(MidiNote) -> bool)
    requires
        0 <= i < s.len(),
        p(s[i]),
    ensures
        exists|k: int| is_first_where(s, k, p),
    decreases i,
{
    if exists|j: int| 0 <= j < i && p(#[trigger] s[j]) {
        let j = choose|j: int| 0 <= j < i && p(#[trigger] s[j]);
        lemma_first_index_exists(s, j, p);
    } else {
        assert(is_first_where(s, i, p));
    }
}

/// The notes once `note` was pressed; see `note_added`, which fixes them.
pub open spec fn pressed(before: Seq<MidiNote>, note: MidiNote) -> Seq<MidiNote> {
    choose|after: Seq<MidiNote>| note_added(before, after, note)
}

/// Two sequences of notes in strictly ascending age that hold the same notes agree
/// on their first `n` positions.
proof fn lemma_ascending_prefix_equal(a: Seq<MidiNote>, b: Seq<MidiNote>, n: int)
    requires
        a.len() == b.len(),
        0 <= n <= a.len(),
        ages_ascending(a),
        ages_ascending(b),
        forall|x: MidiNote| a.contains(x) <==> b.contains(x),
    ensures
        forall|j: int| 0 <= j < n ==> a[j] == b[j],
    decreases n,
{
    if n > 0 {
        lemma_ascending_prefix_equal(a, b, n - 1);
        let i = n - 1;
        assert(a.contains(a[i]));
        let p = choose|p: int| 0 <= p < b.len() && b[p] == a[i];
        assert(b.contains(b[i]));
        let q = choose|q: int| 0 <= q < a.len() && a[q] == b[i];
        if p < i {
            assert(b[p] == a[p]);
        }
        if q < i {
            assert(a[q] == b[q]);
        }
        if p > i {
            assert(b[i].age < b[p].age);
            if q > i {
                assert(a[i].age < a[q].age);
            }
        }
    }
}

/// What `note_added` says of the notes after a press fixes them.
proof fn lemma_note_added_unique(before: Seq<MidiNote>, a: Seq<MidiNote>, b: Seq<MidiNote>, note: MidiNote)
    requires
        note_added(before, a, note),
        note_added(before, b, note),
    ensures
        a == b,
{
    if before.len() >= MAX_NOTES {
        let da = a.drop_last();
        let db = b.drop_last();
        assert forall|x: MidiNote| da.contains(x) <==> db.contains(x) by {}
        lemma_ascending_prefix_equal(da, db, da.len() as int);
        assert(da == db);
        assert(a == da.push(note));
        assert(b == db.push(note));
    }
}

pub proof fn lemma_pressed_is(before: Seq<MidiNote>, after: Seq<MidiNote>, note: MidiNote)
    requires
        note_added(before, after, note),
    ensures
        pressed(before, note) == after,
{
    let c = choose|c: Seq<MidiNote>| note_added(before, c, note);
    lemma_note_added_unique(before, c, after, note);
}

/// Letting go of a key leaves no held note of that key.
pub proof fn lemma_key_released_everywhere(s: Seq<MidiNote>, midi_index: u8)
    ensures
        forall|i: int|
            0 <= i < s.filter(without_key(midi_index)).len() ==> (#[trigger] s.filter(
                without_key(midi_index),
            )[i]).midi_index != midi_index,
{
    let f = s.filter(without_key(midi_index));
    assert forall|i: int| 0 <= i < f.len() implies (#[trigger] f[i]).midi_index != midi_index by {
        s.lemma_filter_pred(without_key(midi_index), i);
    }
}

/// Pressing a key that is not held, while fewer than `MAX_NOTES` are, and letting it
/// go again gives back the pressed note and leaves the other notes as they were,
/// each one step older.
pub proof fn lemma_press_then_release(before: Seq<MidiNote>, note: MidiNote)
    requires
        before.len() < MAX_NOTES,
        forall|i: int| 0 <= i < before.len() ==> (#[trigger] before[i]).midi_index != note.midi_index,
        forall|i: int| 0 <= i < before.len() ==> (#[trigger] before[i]).id != note.id,
    ensures
        ({
            let after = pressed(before, note);
            &&& first_where(after, with_key(note.midi_index)) == Some(before.len() as int)
            &&& after[before.len() as int] == note
            &&& after.remove(first_where(after, with_id(note.id))->0) == aged_notes(before)
        }),
{
    let aged = aged_notes(before);
    let after = aged.push(note);
    assert(note_added(before, after, note));
    lemma_pressed_is(before, after, note);
    let n = before.len() as int;
    assert forall|j: int| 0 <= j < n implies !with_key(note.midi_index)(#[trigger] after[j]) by {
        assert(after[j] == aged[j]);
    }
    lemma_first_where_is(after, n, with_key(note.midi_index));
    assert forall|j: int| 0 <= j < n implies !with_id(note.id)(#[trigger] after[j]) by {
        assert(after[j] == aged[j]);
    }
    lemma_first_where_is(after, n, with_id(note.id));
    assert(after.remove(n) == aged);
}

/// Releasing every note of a key keeps exactly the held notes of the other keys,
/// in their order.
pub proof fn lemma_remove_key_keeps_others(s: Seq<MidiNote>, midi_index: u8)
    ensures
        forall|x: MidiNote|
            #[trigger] s.filter(without_key(midi_index)).contains(x) <==> (s.contains(x) && x.midi_index
                != midi_index),
        s.filter(without_key(midi_index)) == s.filter(|n: MidiNote| n.midi_index != midi_index),
{
    let f = s.filter(without_key(midi_index));
    assert forall|x: MidiNote| #[trigger] f.contains(x) <==> (s.contains(x) && x.midi_index != midi_index) by {
        if f.contains(x) {
            s.lemma_filter_contains_rev(without_key(midi_index), x);
            let i = choose|i: int| 0 <= i < f.len() && f[i] == x;
            s.lemma_filter_pred(without_key(midi_index), i);
        }
        if s.contains(x) && x.midi_index != midi_index {
            let i = choose|i: int| 0 <= i < s.len() && s[i] == x;
            s.lemma_filter_contains(without_key(midi_index), i);
        }
    }
    assert(without_key(midi_index) == (|n: MidiNote| n.midi_index != midi_index));
}

/// Keys that are currently held. Two notes should not share the same id.
pub struct Notes {
    pub notes: Vec<MidiNote>,
    /// The id handed out by the latest `add_note`.
    pub note_id_increment: u64,
}

impl Notes {
    /// At most `MAX_NOTES` notes, no two of the same age.
    pub open spec fn wf(&self) -> bool {
        &&& self.notes@.len() <= MAX_NOTES
        &&& ages_distinct(self.notes@)
    }

    pub open spec fn ids_unique(&self) -> bool {
        ids_distinct(self.notes@)
    }

    /// Every held note carries an id that `add_note` has already handed out.
    pub open spec fn ids_issued(&self) -> bool {
        forall|i: int| 0 <= i < self.notes@.len() ==> #[trigger] self.notes@[i].id <= self.note_id_increment
    }

    pub fn new() -> (r: Self)
        ensures
            r.notes@ == Seq::<MidiNote>::empty(),
            r.note_id_increment == 0,
            r.wf(),
            r.ids_unique(),
            r.ids_issued(),
    {
        Self { notes: Vec::with_capacity(MAX_NOTES), note_id_increment: 0 }
    }

    /// Every held note grows one step older and the new note, of age 0 and with a
    /// voice, joins at the end. When `MAX_NOTES` are already held, the notes are put
    /// in ascending order of age and the oldest gives its place to the new one.
    pub fn add_note_with_id(&mut self, midi_index: u8, velocity_bits: u32, id: u64)
        requires
            old(self).wf(),
            ages_below_max(old(self).notes@),
        ensures
            final(self).wf(),
            final(self).note_id_increment == old(self).note_id_increment,
            note_added(
                old(self).notes@,
                final(self).notes@,
                MidiNote { midi_index, velocity_bits, age: 0, id, has_voice: true },
            ),
            final(self).notes@ == pressed(
                old(self).notes@,
                MidiNote { midi_index, velocity_bits, age: 0, id, has_voice: true },
            ),
    {
        let note = MidiNote { midi_index, velocity_bits, age: 0, id, has_voice: true };
        let ghost aged = aged_notes(old(self).notes@);
        let n = self.notes.len();
        let mut i: usize = 0;
        while i < n
            invariant
                n == self.notes@.len(),
                n == old(self).notes@.len(),
                0 <= i <= n,
                ages_below_max(old(self).notes@),
                aged == aged_notes(old(self).notes@),
                self.note_id_increment == old(self).note_id_increment,
                forall|k: int| 0 <= k < i ==> #[trigger] self.notes@[k] == aged[k],
                forall|k: int| i <= k < n ==> #[trigger] self.notes@[k] == old(self).notes@[k],
            decreases n - i,
        {
            let mut aged_one = self.notes[i];
            aged_one.age = aged_one.age + 1;
            self.notes.set(i, aged_one);
            i = i + 1;
        }
        assert(self.notes@ == aged);
        assert(ages_distinct(aged)) by {
            assert forall|a: int, b: int| 0 <= a < aged.len() && 0 <= b < aged.len() && a != b implies #[trigger] aged[a].age
                != #[trigger] aged[b].age by {
                assert(old(self).notes@[a].age != old(self).notes@[b].age);
            }
        }
        if self.notes.len() < MAX_NOTES {
            self.notes.push(note);
            assert forall|a: int, b: int|
                0 <= a < self.notes@.len() && 0 <= b < self.notes@.len() && a != b implies #[trigger] self.notes@[a].age
                != #[trigger] self.notes@[b].age by {
                if a < n && b < n {
                    assert(aged[a].age != aged[b].age);
                }
            }
        } else {
            sort_by_age(&mut self.notes);
            let ghost sorted = self.notes@;
            let last = self.notes.len() - 1;
            self.notes.set(last, note);
            let ghost s = self.notes@;
            assert(s.drop_last() == sorted.drop_last());
            assert(s.len() == MAX_NOTES);
            assert(s.last() == note);
            assert(ages_ascending(s.drop_last())) by {
                assert forall|a: int, b: int| 0 <= a < b < s.drop_last().len() implies #[trigger] s.drop_last()[a].age
                    < #[trigger] s.drop_last()[b].age by {
                    assert(sorted[a].age < sorted[b].age);
                }
            }
            assert forall|x: MidiNote|
                #![trigger s.drop_last().contains(x)]
                s.drop_last().contains(x) <==> (aged.contains(x) && exists|j: int|
                    0 <= j < aged.len() && x.age < #[trigger] aged[j].age) by {
                if s.drop_last().contains(x) {
                    let k = choose|k: int| 0 <= k < s.len() - 1 && s.drop_last()[k] == x;
                    assert(sorted[k] == x);
                    assert(sorted.contains(x));
                    assert(sorted.contains(sorted[last as int]));
                    let j = choose|j: int| 0 <= j < aged.len() && aged[j] == sorted[last as int];
                    assert(x.age < aged[j].age);
                }
                if aged.contains(x) && exists|j: int| 0 <= j < aged.len() && x.age < #[trigger] aged[j].age {
                    let j = choose|j: int| 0 <= j < aged.len() && x.age < #[trigger] aged[j].age;
                    assert(sorted.contains(x));
                    let k = choose|k: int| 0 <= k < sorted.len() && sorted[k] == x;
                    assert(sorted.contains(aged[j]));
                    let kj = choose|kj: int| 0 <= kj < sorted.len() && sorted[kj] == aged[j];
                    if k == last {
                        assert(kj != last);
                        assert(sorted[kj].age < sorted[k].age);
                    }
                    assert(s.drop_last()[k] == x);
                }
            }
            assert forall|a: int, b: int|
                0 <= a < s.len() && 0 <= b < s.len() && a != b implies #[trigger] s[a].age
                != #[trigger] s[b].age by {
                if a < last && b < last {
                    assert(sorted[a].age != sorted[b].age);
                } else if a < last {
                    assert(sorted.contains(sorted[a]));
                    let j = choose|j: int| 0 <= j < aged.len() && aged[j] == sorted[a];
                    assert(aged[j].age >= 1);
                } else if b < last {
                    assert(sorted.contains(sorted[b]));
                    let j = choose|j: int| 0 <= j < aged.len() && aged[j] == sorted[b];
                    assert(aged[j].age >= 1);
                }
            }
        }
        proof {
            lemma_pressed_is(old(self).notes@, self.notes@, note);
        }
    }

    /// Hands out the next id and presses the key under it; the id is returned.
    pub fn add_note(&mut self, midi_index: u8, velocity_bits: u32) -> (id: u64)
        requires
            old(self).wf(),
            ages_below_max(old(self).notes@),
            old(self).note_id_increment < u64::MAX,
        ensures
            final(self).wf(),
            id == old(self).note_id_increment + 1,
            final(self).note_id_increment == id,
            note_added(
                old(self).notes@,
                final(self).notes@,
                MidiNote { midi_index, velocity_bits, age: 0, id, has_voice: true },
            ),
            final(self).notes@ == pressed(
                old(self).notes@,
                MidiNote { midi_index, velocity_bits, age: 0, id, has_voice: true },
            ),
            old(self).ids_unique() && old(self).ids_issued() ==> final(self).ids_unique()
                && final(self).ids_issued(),
    {
        self.note_id_increment = self.note_id_increment + 1;
        let id = self.note_id_increment;
        self.add_note_with_id(midi_index, velocity_bits, id);
        proof {
            lemma_fresh_id_keeps_ids(old(self).notes@, self.notes@, MidiNote {
                midi_index,
                velocity_bits,
                age: 0,
                id,
                has_voice: true,
            }, old(self).note_id_increment);
        }
        id
    }

    /// Releases the first held note with this id, if there is one.
    pub fn remove_note_by_id(&mut self, id: u64)
        ensures
            old(self).wf() ==> final(self).wf(),
            final(self).note_id_increment == old(self).note_id_increment,
            match first_where(old(self).notes@, with_id(id)) {
                Some(k) => final(self).notes@ == old(self).notes@.remove(k),
                None => final(self).notes@ == old(self).notes@,
            },
            old(self).ids_unique() ==> final(self).ids_unique(),
            old(self).ids_issued() ==> final(self).ids_issued(),
    {
        let n = self.notes.len();
        let mut i: usize = 0;
        while i < n
            invariant
                n == self.notes@.len(),
                0 <= i <= n,
                self.notes@ == old(self).notes@,
                self.note_id_increment == old(self).note_id_increment,
                forall|j: int| 0 <= j < i ==> !with_id(id)(#[trigger] self.notes@[j]),
            decreases n - i,
        {
            if self.notes[i].id == id {
                proof {
                    lemma_first_where_is(self.notes@, i as int, with_id(id));
                    lemma_remove_keeps_distinct(self.notes@, i as int);
                }
                self.notes.remove(i);
                assert forall|j: int| 0 <= j < self.notes@.len() implies #[trigger] self.notes@[j].id
                    <= self.note_id_increment || !old(self).ids_issued() by {
                    if old(self).ids_issued() {
                        let sj = if j < i { j } else { j + 1 };
                        assert(self.notes@[j] == old(self).notes@[sj]);
                    }
                }
                return;
            }
            i = i + 1;
        }
        proof {
            lemma_first_where_none(self.notes@, with_id(id));
        }
    }

    /// Releases the first held note of this key, and returns it. It is taken out by
    /// its id, so with unique ids exactly that note goes.
    pub fn remove_note_by_midi(&mut self, midi_index: u8) -> (r: Option<MidiNote>)
        ensures
            old(self).wf() ==> final(self).wf(),
            final(self).note_id_increment == old(self).note_id_increment,
            match first_where(old(self).notes@, with_key(midi_index)) {
                Some(k) => {
                    &&& r == Some(old(self).notes@[k])
                    &&& final(self).notes@ == old(self).notes@.remove(
                        first_where(old(self).notes@, with_id(old(self).notes@[k].id))->0,
                    )
                    &&& old(self).ids_unique() ==> final(self).notes@ == old(self).notes@.remove(k)
                },
                None => r is None && final(self).notes@ == old(self).notes@,
            },
            old(self).ids_unique() ==> final(self).ids_unique(),
            old(self).ids_issued() ==> final(self).ids_issued(),
    {
        let n = self.notes.len();
        let mut i: usize = 0;
        while i < n
            invariant
                n == self.notes@.len(),
                0 <= i <= n,
                self.notes@ == old(self).notes@,
                self.note_id_increment == old(self).note_id_increment,
                forall|j: int| 0 <= j < i ==> !with_key(midi_index)(#[trigger] self.notes@[j]),
            decreases n - i,
        {
            if self.notes[i].midi_index == midi_index {
                let note = self.notes[i];
                proof {
                    lemma_first_where_is(self.notes@, i as int, with_key(midi_index));
                    assert(with_id(note.id)(self.notes@[i as int]));
                    let k = choose|k: int| is_first_where(self.notes@, k, with_id(note.id));
                    assert(is_first_where(self.notes@, k, with_id(note.id))) by {
                        if !(exists|k: int| is_first_where(self.notes@, k, with_id(note.id))) {
                            lemma_first_index_exists(self.notes@, i as int, with_id(note.id));
                        }
                    }
                    if ids_distinct(self.notes@) {
                        if k != i {
                            assert(self.notes@[k].id != self.notes@[i as int].id);
                        }
                        lemma_first_where_is(self.notes@, k, with_id(note.id));
                    }
                }
                self.remove_note_by_id(note.id);
                return Some(note);
            }
            i = i + 1;
        }
        proof {
            lemma_first_where_none(self.notes@, with_key(midi_index));
        }
        None
    }

    /// Releases every held note of this key; the others keep their order.
    pub fn remove_notes_by_midi(&mut self, midi_index: u8)
        ensures
            old(self).wf() ==> final(self).wf(),
            final(self).note_id_increment == old(self).note_id_increment,
            final(self).notes@ == old(self).notes@.filter(without_key(midi_index)),
            forall|x: MidiNote|
                #[trigger] final(self).notes@.contains(x) <==> (old(self).notes@.contains(x) && x.midi_index
                    != midi_index),
            old(self).ids_unique() ==> final(self).ids_unique(),
            old(self).ids_issued() ==> final(self).ids_issued(),
    {
        proof {
            lemma_remove_key_keeps_others(old(self).notes@, midi_index);
        }
        let ghost s = self.notes@;
        let n = self.notes.len();
        let mut kept: Vec<MidiNote> = Vec::new();
        let mut i: usize = 0;
        while i < n
            invariant
                s == self.notes@,
                n == s.len(),
                0 <= i <= n,
                s == old(self).notes@,
                kept@ == s.subrange(0, i as int).filter(without_key(midi_index)),
                kept@.len() <= i,
                forall|k: int| 0 <= k < kept@.len() ==> exists|q: int| 0 <= q < i && #[trigger] kept@[k] == s[q],
                ages_distinct(s) ==> ages_distinct(kept@),
                ids_distinct(s) ==> ids_distinct(kept@),
            decreases n - i,
        {
            let note = self.notes[i];
            proof {
                assert(s.subrange(0, i + 1) == s.subrange(0, i as int).push(note));
                s.subrange(0, i as int).lemma_filter_push(note, without_key(midi_index));
            }
            if note.midi_index != midi_index {
                let ghost before = kept@;
                kept.push(note);
                assert forall|k: int| 0 <= k < kept@.len() implies exists|q: int|
                    0 <= q < i + 1 && #[trigger] kept@[k] == s[q] by {
                    if k < before.len() {
                        assert(kept@[k] == before[k]);
                    } else {
                        assert(kept@[k] == s[i as int]);
                    }
                }
                proof {
                if ages_distinct(s) {
                    assert forall|a: int, b: int|
                        0 <= a < kept@.len() && 0 <= b < kept@.len() && a != b implies #[trigger] kept@[a].age
                        != #[trigger] kept@[b].age by {
                        if a < before.len() && b < before.len() {
                            assert(kept@[a] == before[a]);
                            assert(kept@[b] == before[b]);
                        } else if a < before.len() {
                            let q = choose|q: int| 0 <= q < i && #[trigger] before[a] == s[q];
                            assert(kept@[a] == s[q]);
                        } else {
                            let q = choose|q: int| 0 <= q < i && #[trigger] before[b] == s[q];
                            assert(kept@[b] == s[q]);
                        }
                    }
                }
                if ids_distinct(s) {
                    assert forall|a: int, b: int|
                        0 <= a < kept@.len() && 0 <= b < kept@.len() && a != b implies #[trigger] kept@[a].id
                        != #[trigger] kept@[b].id by {
                        if a < before.len() && b < before.len() {
                            assert(kept@[a] == before[a]);
                            assert(kept@[b] == before[b]);
                        } else if a < before.len() {
                            let q = choose|q: int| 0 <= q < i && #[trigger] before[a] == s[q];
                            assert(kept@[a] == s[q]);
                        } else {
                            let q = choose|q: int| 0 <= q < i && #[trigger] before[b] == s[q];
                            assert(kept@[b] == s[q]);
                        }
                    }
                }
                }
            }
            i = i + 1;
        }
        assert(s.subrange(0, n as int) == s);
        self.notes = kept;
        assert forall|j: int| 0 <= j < self.notes@.len() implies #[trigger] self.notes@[j].id
            <= self.note_id_increment || !old(self).ids_issued() by {
            let q = choose|q: int| 0 <= q < n && #[trigger] self.notes@[j] == s[q];
        }
    }

    /// The first held note with this id, to be changed in place.
    pub fn get_by_id(&mut self, id: u64) -> (r: Option<&mut MidiNote>)
        ensures
            final(self).note_id_increment == old(self).note_id_increment,
            match first_where(old(self).notes@, with_id(id)) {
                Some(k) => {
                    &&& r is Some
                    &&& *r->0 == old(self).notes@[k]
                    &&& final(self).notes@ == old(self).notes@.update(k, *final(r->0))
                },
                None => r is None && final(self).notes@ == old(self).notes@,
            },
    {
        let n = self.notes.len();
        let mut i: usize = 0;
        while i < n
            invariant
                n == self.notes@.len(),
                0 <= i <= n,
                self.notes@ == old(self).notes@,
                self.note_id_increment == old(self).note_id_increment,
                forall|j: int| 0 <= j < i ==> !with_id(id)(#[trigger] self.notes@[j]),
            decreases n - i,
        {
            if self.notes[i].id == id {
                proof {
                    lemma_first_where_is(self.notes@, i as int, with_id(id));
                }
                return Some(&mut self.notes[i]);
            }
            i = i + 1;
        }
        proof {
            lemma_first_where_none(self.notes@, with_id(id));
        }
        None
    }

    /// The youngest held note that no voice sounds, to be changed in place; among
    /// notes of equal age the first.
    pub fn get_newest_empty(&mut self) -> (r: Option<&mut MidiNote>)
        ensures
            final(self).note_id_increment == old(self).note_id_increment,
            match newest_empty(old(self).notes@) {
                Some(k) => {
                    &&& r is Some
                    &&& *r->0 == old(self).notes@[k]
                    &&& final(self).notes@ == old(self).notes@.update(k, *final(r->0))
                },
                None => r is None && final(self).notes@ == old(self).notes@,
            },
            newest_empty(old(self).notes@) is None <==> forall|j: int|
                0 <= j < old(self).notes@.len() ==> (#[trigger] old(self).notes@[j]).has_voice,
    {
        let n = self.notes.len();
        let mut best: Option<usize> = None;
        let mut i: usize = 0;
        while i < n
            invariant
                n == self.notes@.len(),
                0 <= i <= n,
                self.notes@ == old(self).notes@,
                self.note_id_increment == old(self).note_id_increment,
                match best {
                    None => forall|j: int| 0 <= j < i ==> (#[trigger] self.notes@[j]).has_voice,
                    Some(b) => {
                        &&& b < i
                        &&& !self.notes@[b as int].has_voice
                        &&& forall|j: int|
                            0 <= j < i && !self.notes@[j].has_voice ==> self.notes@[b as int].age
                                <= #[trigger] self.notes@[j].age
                        &&& forall|j: int|
                            0 <= j < b && !self.notes@[j].has_voice ==> self.notes@[b as int].age
                                < #[trigger] self.notes@[j].age
                    },
                },
            decreases n - i,
        {
            if !self.notes[i].has_voice {
                match best {
                    None => {
                        best = Some(i);
                    },
                    Some(b) => {
                        if self.notes[i].age < self.notes[b].age {
                            best = Some(i);
                        }
                    },
                }
            }
            i = i + 1;
        }
        match best {
            None => {
                proof {
                    if exists|k: int| is_newest_empty(self.notes@, k) {
                        let k = choose|k: int| is_newest_empty(self.notes@, k);
                        assert(self.notes@[k].has_voice);
                    }
                }
                None
            },
            Some(b) => {
                proof {
                    lemma_newest_empty_is(self.notes@, b as int);
                }
                Some(&mut self.notes[b])
            },
        }
    }
}

} // verus!
