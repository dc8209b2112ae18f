use vstd::prelude::*;

use super::notes::{
    aged_notes, ages_below_max, first_where, is_first_where, is_newest_empty, lemma_press_then_release,
    newest_empty, pressed, with_id, with_key, MidiNote, Notes, MAX_NOTES,
};

verus! {

/// Whether a voice taken from one key to another restarts or glides.
#[derive(Debug, Clone, Copy, PartialEq, Eq, Structural, Default)]
pub enum LegatoMode {
    #[default]
    Off,
    On,
}

/// Settings that shape how keys are given voices.
#[derive(Debug, Clone, Copy, PartialEq, Eq, Structural)]
pub struct GlobalParams {
    pub legato: LegatoMode,
    /// Most voices that sound at once.
    pub voice_count: usize,
    /// Voices started for every key.
    pub unison_count: usize,
}

impl Default for GlobalParams {
    fn default() -> (r: Self)
        ensures
            r == (GlobalParams { legato: LegatoMode::Off, voice_count: 32, unison_count: 1 }),
    {
        Self { legato: LegatoMode::Off, voice_count: 32, unison_count: 1 }
    }
}

/// The bookkeeping of one sounding voice: the key it plays, the note that owns it,
/// how many voices were started after it, its place in a unison stack, how many
/// samples it has played, and when it was let go.
#[derive(Debug, Clone, Copy, PartialEq, Eq)]
pub struct Voice {
    pub midi_id: u8,
    pub note_id: u64,
    pub age: u32,
    pub super_index: usize,
    pub time: u32,
    pub released_time: Option<u32>,
}

/// A voice that has just been started.
pub open spec fn fresh_voice(midi_id: u8, note_id: u64, super_index: usize) -> Voice {
    Voice { midi_id, note_id, age: 0, super_index, time: 0, released_time: None }
}

/// The voice once let go at its current time.
pub open spec fn released_voice(v: Voice) -> Voice {
    Voice { released_time: Some(v.time), ..v }
}

/// The voice handed to another key without restarting.
pub open spec fn retargeted_voice(v: Voice, midi_id: u8, note_id: u64) -> Voice {
    Voice { midi_id, note_id, age: 0, released_time: None, ..v }
}

/// The voice one started voice later.
pub open spec fn aged_voice(v: Voice) -> Voice {
    Voice { age: (v.age + 1) as u32, ..v }
}

pub open spec fn aged_voices(s: Seq<Voice>) -> Seq<Voice> {
    s.map_values(|v: Voice| aged_voice(v))
}

pub open spec fn voice_ages_fit(s: Seq<Voice>, extra: int) -> bool {
    forall|i: int| 0 <= i < s.len() ==> #[trigger] s[i].age + extra <= u32::MAX
}

pub open spec fn voices_wf(s: Seq<Voice>) -> bool {
    forall|i: int| 0 <= i < s.len() ==> (#[trigger] s[i]).wf()
}

/// Positions of `s`, in ascending order, whose voice satisfies `p`.
pub open spec fn indices_where(s: Seq<Voice>, p: spec_fn(Voice) -> bool) -> Seq<usize>
    decreases s.len(),
{
    if s.len() == 0 {
        Seq::empty()
    } else {
        let r = indices_where(s.drop_last(), p);
        if p(s.last()) {
            r.push((s.len() - 1) as usize)
        } else {
            r
        }
    }
}

pub open spec fn sounding_key(midi_id: u8) -> spec_fn(Voice) -> bool {
    |v: Voice| v.midi_id == midi_id && v.released_time is None
}

pub open spec fn sounding_note(note_id: u64) -> spec_fn(Voice) -> bool {
    |v: Voice| v.note_id == note_id && v.released_time is None
}

pub open spec fn of_note(note_id: u64) -> spec_fn(Voice) -> bool {
    |v: Voice| v.note_id == note_id
}

/// Every voice satisfying `p` let go, the others unchanged.
pub open spec fn release_where(s: Seq<Voice>, p: spec_fn(Voice) -> bool) -> Seq<Voice> {
    s.map_values(|v: Voice| if p(v) { released_voice(v) } else { v })
}

/// How many flags are set.
pub open spec fn count_set(flags: Seq<bool>) -> nat
    decreases flags.len(),
{
    if flags.len() == 0 {
        0
    } else {
        count_set(flags.drop_last()) + if flags.last() { 1nat } else { 0nat }
    }
}

/// The voices whose flag is clear, in their order.
pub open spec fn keep_unflagged(s: Seq<Voice>, flags: Seq<bool>) -> Seq<Voice>
    decreases s.len(),
{
    if s.len() == 0 {
        Seq::empty()
    } else {
        let r = keep_unflagged(s.drop_last(), flags.drop_last());
        if flags.last() {
            r
        } else {
            r.push(s.last())
        }
    }
}

/// The voice made `by` steps younger.
pub open spec fn younger_voice(v: Voice, by: u32) -> Voice {
    Voice { age: (v.age - by) as u32, ..v }
}

impl Voice {
    /// A voice that was let go did so no later than now.
    pub open spec fn wf(&self) -> bool {
        match self.released_time {
            Some(r) => r <= self.time,
            None => true,
        }
    }

    pub fn new(midi_id: u8, note_id: u64, super_index: usize) -> (r: Self)
        ensures
            r == fresh_voice(midi_id, note_id, super_index),
            r.wf(),
    {
        Self { midi_id, note_id, age: 0, super_index, time: 0, released_time: None }
    }

    /// Lets the voice go now.
    pub fn release(&mut self)
        ensures
            *final(self) == released_voice(*old(self)),
            final(self).wf(),
    {
        self.released_time = Some(self.time);
    }

    pub fn is_released(&self) -> (r: bool)
        ensures
            r == self.released_time is Some,
    {
        self.released_time.is_some()
    }

    /// Samples played since the voice was let go.
    pub fn time_since_release(&self) -> (r: Option<u32>)
        requires
            self.wf(),
        ensures
            r == match self.released_time {
                Some(t) => Some((self.time - t) as u32),
                None => None,
            },
    {
        match self.released_time {
            Some(release_time) => Some(self.time - release_time),
            None => None,
        }
    }

    /// Hands the voice to another key: it plays on, young and held again.
    pub fn move_to_new_note(&mut self, midi_index: u8, id: u64)
        ensures
            *final(self) == retargeted_voice(*old(self), midi_index, id),
            old(self).wf() ==> final(self).wf(),
    {
        self.midi_id = midi_index;
        self.note_id = id;
        self.age = 0;
        self.released_time = None;
    }

    /// One more sample played.
    pub fn tick(&mut self)
        requires
            old(self).time < u32::MAX,
        ensures
            *final(self) == (Voice { time: (old(self).time + 1) as u32, ..*old(self) }),
            old(self).wf() ==> final(self).wf(),
    {
        self.time = self.time + 1;
    }
}

/// `k` holds the oldest voice among those released (or among those still held);
/// among equally old ones, the last.
pub open spec fn is_oldest_of(s: Seq<Voice>, k: int, released: bool) -> bool {
    &&& 0 <= k < s.len()
    &&& (s[k].released_time is Some) == released
    &&& forall|j: int|
        0 <= j < s.len() && ((#[trigger] s[j]).released_time is Some) == released ==> s[j].age <= s[k].age
    &&& forall|j: int|
        k < j < s.len() && ((#[trigger] s[j]).released_time is Some) == released ==> s[j].age < s[k].age
}

pub open spec fn oldest_of(s: Seq<Voice>, released: bool) -> Option<int> {
    if exists|k: int| is_oldest_of(s, k, released) {
        Some(choose|k: int| is_oldest_of(s, k, released))
    } else {
        None
    }
}

/// The voice given up for a new one when all are in use: the oldest released
/// voice if there is one, else the oldest held one.
pub open spec fn steal_index(s: Seq<Voice>) -> int {
    match oldest_of(s, true) {
        Some(k) => k,
        None => oldest_of(s, false)->0,
    }
}

/// The notes once the note with this id no longer has a voice.
pub open spec fn note_voice_taken(notes: Seq<MidiNote>, id: u64) -> Seq<MidiNote> {
    match first_where(notes, with_id(id)) {
        Some(i) => notes.update(i, MidiNote { has_voice: false, ..notes[i] }),
        None => notes,
    }
}

/// Voices, notes and the placement after one voice is started for a key: every
/// voice one step older; a new voice appended while there is room, else the
/// stolen voice restarted (or, with legato, handed over) and its note marked
/// voiceless.
pub open spec fn add_voice_model(
    voices: Seq<Voice>,
    notes: Seq<MidiNote>,
    params: GlobalParams,
    midi_index: u8,
    note_id: u64,
    super_index: usize,
) -> (Seq<Voice>, Seq<MidiNote>, VoiceAllocation) {
    let aged = aged_voices(voices);
    if voices.len() < params.voice_count {
        (aged.push(fresh_voice(midi_index, note_id, super_index)), notes, VoiceAllocation::Pushed)
    } else {
        let k = steal_index(aged);
        let taken = note_voice_taken(notes, aged[k].note_id);
        match params.legato {
            LegatoMode::Off => (
                aged.update(k, fresh_voice(midi_index, note_id, super_index)),
                taken,
                VoiceAllocation::Replaced(k as usize),
            ),
            LegatoMode::On => (
                aged.update(k, retargeted_voice(aged[k], midi_index, note_id)),
                taken,
                VoiceAllocation::Retargeted(k as usize),
            ),
        }
    }
}

proof fn lemma_oldest_of_is(s: Seq<Voice>, k: int, released: bool)
    requires
        is_oldest_of(s, k, released),
    ensures
        oldest_of(s, released) == Some(k),
{
    let c = choose|c: int| is_oldest_of(s, c, released);
    assert(is_oldest_of(s, c, released));
    if c < k {
        assert(s[k].age < s[c].age);
        assert(s[k].age <= s[c].age);
        assert(s[c].age <= s[k].age);
    } else if k < c {
        assert(s[c].age < s[k].age);
        assert(s[c].age <= s[k].age);
        assert(s[k].age <= s[c].age);
    }
}

proof fn lemma_oldest_of_none(s: Seq<Voice>, released: bool)
    requires
        forall|j: int| 0 <= j < s.len() ==> ((#[trigger] s[j]).released_time is Some) != released,
    ensures
        oldest_of(s, released) is None,
{
    if exists|k: int| is_oldest_of(s, k, released) {
        let k = choose|k: int| is_oldest_of(s, k, released);
        assert(s[k].released_time is Some == released);
    }
}

/// Voices, notes and placements after `count` voices were started for a key, with
/// unison positions `0` to `count - 1` in that order.
pub open spec fn add_voices_model(
    voices: Seq<Voice>,
    notes: Seq<MidiNote>,
    params: GlobalParams,
    midi_index: u8,
    note_id: u64,
    count: nat,
) -> (Seq<Voice>, Seq<MidiNote>, Seq<VoiceAllocation>)
    decreases count,
{
    if count == 0 {
        (voices, notes, Seq::empty())
    } else {
        let (v, n, placed) = add_voices_model(voices, notes, params, midi_index, note_id, (count - 1) as nat);
        let (v2, n2, a) = add_voice_model(v, n, params, midi_index, note_id, (count - 1) as usize);
        (v2, n2, placed.push(a))
    }
}

/// How many voices a key starts: its unison size, capped by the voice count.
pub open spec fn voices_per_key(params: GlobalParams) -> nat {
    if params.unison_count < params.voice_count {
        params.unison_count as nat
    } else {
        params.voice_count as nat
    }
}

/// Every voice given the same id as another hands over to `to`: restarted, or with
/// legato gliding.
pub open spec fn hand_over(voices: Seq<Voice>, from_id: u64, to: MidiNote, legato: LegatoMode) -> Seq<Voice> {
    voices.map_values(
        |v: Voice|
            if v.note_id == from_id {
                match legato {
                    LegatoMode::Off => fresh_voice(to.midi_index, to.id, v.super_index),
                    LegatoMode::On => retargeted_voice(v, to.midi_index, to.id),
                }
            } else {
                v
            },
    )
}

/// `b` holds the notes of `a`, with at most their voice flags changed.
pub open spec fn same_notes_but_flags(a: Seq<MidiNote>, b: Seq<MidiNote>) -> bool {
    &&& a.len() == b.len()
    &&& forall|i: int| 0 <= i < a.len() ==> #[trigger] b[i] == MidiNote { has_voice: b[i].has_voice, ..a[i] }
}

/// Starting a voice adds one when there is room and otherwise keeps the number,
/// and touches no note but its voice flag.
pub proof fn lemma_add_voice_shape(
    voices: Seq<Voice>,
    notes: Seq<MidiNote>,
    params: GlobalParams,
    midi_index: u8,
    note_id: u64,
    super_index: usize,
)
    requires
        voices.len() > 0 || params.voice_count > 0,
    ensures
        ({
            let (v, n, _a) = add_voice_model(voices, notes, params, midi_index, note_id, super_index);
            &&& v.len() == if voices.len() < params.voice_count { voices.len() + 1 } else { voices.len() }
            &&& same_notes_but_flags(notes, n)
        }),
{
    let aged = aged_voices(voices);
    if voices.len() >= params.voice_count {
        lemma_steal_index_in_range(aged);
        let k = steal_index(aged);
        match first_where(notes, with_id(aged[k].note_id)) {
            Some(i) => {
                let c = choose|c: int| is_first_where(notes, c, with_id(aged[k].note_id));
                assert(0 <= i < notes.len());
            },
            None => {},
        }
    }
}

/// Starting `count` voices keeps the number of voices within the voice count and
/// touches no note but voice flags.
pub proof fn lemma_add_voices_shape(
    voices: Seq<Voice>,
    notes: Seq<MidiNote>,
    params: GlobalParams,
    midi_index: u8,
    note_id: u64,
    count: nat,
)
    requires
        count <= params.voice_count,
    ensures
        ({
            let (v, n, placed) = add_voices_model(voices, notes, params, midi_index, note_id, count);
            &&& voices.len() <= params.voice_count ==> v.len() <= params.voice_count
            &&& same_notes_but_flags(notes, n)
            &&& placed.len() == count
        }),
    decreases count,
{
    if count > 0 {
        lemma_add_voices_shape(voices, notes, params, midi_index, note_id, (count - 1) as nat);
        let (v, n, placed) = add_voices_model(voices, notes, params, midi_index, note_id, (count - 1) as nat);
        lemma_add_voice_shape(v, n, params, midi_index, note_id, (count - 1) as usize);
        let n2 = add_voice_model(v, n, params, midi_index, note_id, (count - 1) as usize).1;
        assert forall|i: int| 0 <= i < notes.len() implies #[trigger] n2[i] == MidiNote {
            has_voice: n2[i].has_voice,
            ..notes[i]
        } by {
            assert(n[i] == MidiNote { has_voice: n[i].has_voice, ..notes[i] });
        }
    }
}

proof fn lemma_add_voice_ages(
    voices: Seq<Voice>,
    notes: Seq<MidiNote>,
    params: GlobalParams,
    midi_index: u8,
    note_id: u64,
    super_index: usize,
    extra: int,
)
    requires
        0 <= extra < u32::MAX,
        voice_ages_fit(voices, extra + 1),
        voices.len() > 0 || params.voice_count > 0,
    ensures
        voice_ages_fit(add_voice_model(voices, notes, params, midi_index, note_id, super_index).0, extra),
        add_voice_model(voices, notes, params, midi_index, note_id, super_index).0.len() > 0,
{
    lemma_add_voice_shape(voices, notes, params, midi_index, note_id, super_index);
    let aged = aged_voices(voices);
    let r = add_voice_model(voices, notes, params, midi_index, note_id, super_index).0;
    if voices.len() >= params.voice_count {
        lemma_steal_index_in_range(aged);
        let k = steal_index(aged);
        assert forall|i: int| 0 <= i < r.len() implies #[trigger] r[i].age + extra <= u32::MAX by {
            if i != k {
                assert(r[i] == aged[i]);
                assert(aged[i].age == voices[i].age + 1);
            } else {
                assert(r[i].age == 0);
            }
        }
    } else {
        assert forall|i: int| 0 <= i < r.len() implies #[trigger] r[i].age + extra <= u32::MAX by {
            assert(r == aged.push(fresh_voice(midi_index, note_id, super_index)));
            if i < voices.len() {
                assert(r[i] == aged[i]);
                assert(aged[i].age == voices[i].age + 1);
            }
        }
    }
}

/// Among voices of one kind, when there is any, one is the oldest.
proof fn lemma_oldest_exists(s: Seq<Voice>, released: bool)
    requires
        exists|j: int| 0 <= j < s.len() && ((#[trigger] s[j]).released_time is Some) == released,
    ensures
        exists|k: int| is_oldest_of(s, k, released),
    decreases s.len(),
{
    let n = s.len() - 1;
    let last_fits = (s[n].released_time is Some) == released;
    let p = s.drop_last();
    if exists|j: int| 0 <= j < p.len() && ((#[trigger] p[j]).released_time is Some) == released {
        lemma_oldest_exists(p, released);
        let k = choose|k: int| is_oldest_of(p, k, released);
        assert(p[k] == s[k]);
        if last_fits && s[n].age >= s[k].age {
            assert(is_oldest_of(s, n, released)) by {
                assert forall|j: int|
                    0 <= j < s.len() && ((#[trigger] s[j]).released_time is Some) == released implies s[j].age
                    <= s[n].age by {
                    if j < n {
                        assert(p[j] == s[j]);
                    }
                }
            }
        } else {
            assert(is_oldest_of(s, k, released)) by {
                assert forall|j: int|
                    0 <= j < s.len() && ((#[trigger] s[j]).released_time is Some) == released implies s[j].age
                    <= s[k].age by {
                    if j < n {
                        assert(p[j] == s[j]);
                    }
                }
                assert forall|j: int|
                    k < j < s.len() && ((#[trigger] s[j]).released_time is Some) == released implies s[j].age
                    < s[k].age by {
                    if j < n {
                        assert(p[j] == s[j]);
                    }
                }
            }
        }
    } else {
        let j = choose|j: int| 0 <= j < s.len() && ((#[trigger] s[j]).released_time is Some) == released;
        if j < n {
            assert(p[j] == s[j]);
        }
        assert(last_fits);
        assert(is_oldest_of(s, n, released)) by {
            assert forall|j: int|
                0 <= j < s.len() && ((#[trigger] s[j]).released_time is Some) == released implies s[j].age
                <= s[n].age by {
                if j < n {
                    assert(p[j] == s[j]);
                }
            }
        }
    }
}

/// The stolen voice is one of the voices, and a released one when any is released.
pub proof fn lemma_steal_index_in_range(s: Seq<Voice>)
    requires
        s.len() > 0,
    ensures
        0 <= steal_index(s) < s.len(),
        (exists|j: int| 0 <= j < s.len() && (#[trigger] s[j]).released_time is Some) ==> s[steal_index(
            s,
        )].released_time is Some,
        is_oldest_of(s, steal_index(s), s[steal_index(s)].released_time is Some),
{
    if exists|j: int| 0 <= j < s.len() && ((#[trigger] s[j]).released_time is Some) == true {
        lemma_oldest_exists(s, true);
        let k = choose|k: int| is_oldest_of(s, k, true);
        lemma_oldest_of_is(s, k, true);
    } else {
        lemma_oldest_of_none(s, true);
        assert(((s[0]).released_time is Some) == false);
        lemma_oldest_exists(s, false);
        let k = choose|k: int| is_oldest_of(s, k, false);
        lemma_oldest_of_is(s, k, false);
    }
}

/// Letting go of the voices of a key leaves none of them held and changes no
/// other voice.
pub proof fn lemma_release_silences_key(voices: Seq<Voice>, midi_id: u8)
    ensures
        ({
            let after = release_where(voices, sounding_key(midi_id));
            &&& after.len() == voices.len()
            &&& forall|i: int| 0 <= i < after.len() ==> !sounding_key(midi_id)(#[trigger] after[i])
            &&& forall|i: int|
                0 <= i < after.len() && voices[i].midi_id != midi_id ==> #[trigger] after[i] == voices[i]
        }),
{
}

/// Voices and notes after letting go of a key: its first note dropped; the voices
/// of that note handed to the youngest voiceless note if it had voices and there is
/// one; otherwise every voice still held on the key let go.
pub open spec fn note_off_model(voices: Seq<Voice>, notes: Seq<MidiNote>, legato: LegatoMode, midi_index: u8) -> (
    Seq<Voice>,
    Seq<MidiNote>,
) {
    match first_where(notes, with_key(midi_index)) {
        None => (voices, notes),
        Some(k) => {
            let gone = notes[k];
            let rest = notes.remove(first_where(notes, with_id(gone.id))->0);
            if gone.has_voice && newest_empty(rest) is Some {
                let e = newest_empty(rest)->0;
                let taker = MidiNote { has_voice: true, ..rest[e] };
                (hand_over(voices, gone.id, taker, legato), rest.update(e, taker))
            } else {
                (release_where(voices, sounding_key(midi_index)), rest)
            }
        },
    }
}

/// While there is room, starting `count` voices appends them, youngest last, and
/// makes every earlier voice `count` steps older; no note changes.
pub proof fn lemma_add_voices_with_room(
    voices: Seq<Voice>,
    notes: Seq<MidiNote>,
    params: GlobalParams,
    midi_index: u8,
    note_id: u64,
    count: nat,
)
    requires
        voices.len() + count <= params.voice_count,
        voice_ages_fit(voices, count as int),
        count <= u32::MAX,
    ensures
        ({
            let (v, n, placed) = add_voices_model(voices, notes, params, midi_index, note_id, count);
            &&& n == notes
            &&& v.len() == voices.len() + count
            &&& forall|i: int|
                0 <= i < voices.len() ==> #[trigger] v[i] == Voice { age: (voices[i].age + count) as u32, ..voices[i] }
            &&& forall|j: int|
                0 <= j < count ==> #[trigger] v[voices.len() + j] == Voice {
                    midi_id: midi_index,
                    note_id,
                    age: (count - 1 - j) as u32,
                    super_index: j as usize,
                    time: 0,
                    released_time: None,
                }
            &&& placed == Seq::new(count, |j: int| VoiceAllocation::Pushed)
        }),
    decreases count,
{
    if count > 0 {
        let c1 = (count - 1) as nat;
        lemma_add_voices_with_room(voices, notes, params, midi_index, note_id, c1);
        let (v, n, placed) = add_voices_model(voices, notes, params, midi_index, note_id, c1);
        let aged = aged_voices(v);
        let r = aged.push(fresh_voice(midi_index, note_id, c1 as usize));
        assert(add_voices_model(voices, notes, params, midi_index, note_id, count).0 == r);
        assert forall|i: int| 0 <= i < voices.len() implies #[trigger] r[i] == Voice {
            age: (voices[i].age + count) as u32,
            ..voices[i]
        } by {
            assert(r[i] == aged[i]);
            assert(v[i] == Voice { age: (voices[i].age + c1) as u32, ..voices[i] });
        }
        assert forall|j: int| 0 <= j < count implies #[trigger] r[voices.len() + j] == Voice {
            midi_id: midi_index,
            note_id,
            age: (count - 1 - j) as u32,
            super_index: j as usize,
            time: 0,
            released_time: None,
        } by {
            if j < c1 {
                assert(r[voices.len() + j] == aged[voices.len() + j]);
                assert(v[voices.len() + j] == Voice {
                    midi_id: midi_index,
                    note_id,
                    age: (c1 - 1 - j) as u32,
                    super_index: j as usize,
                    time: 0,
                    released_time: None,
                });
            }
        }
        assert(placed.push(VoiceAllocation::Pushed) == Seq::new(count, |j: int| VoiceAllocation::Pushed));
    } else {
        assert(Seq::<VoiceAllocation>::empty() == Seq::new(0, |j: int| VoiceAllocation::Pushed));
    }
}

/// Pressing a key that no held note plays, while every held note has a voice, fewer
/// than `MAX_NOTES` notes are held and the key's voices fit beside the others, and
/// then letting it go: the held notes are as before, one step older; the voices the
/// key started are appended and already let go; every other voice is as before,
/// older by the voices started, and let go only if it was still held on the key.
pub proof fn lemma_note_on_then_off(
    voices: Seq<Voice>,
    notes: Seq<MidiNote>,
    params: GlobalParams,
    midi_index: u8,
    velocity_bits: u32,
    counter: u64,
)
    requires
        notes.len() < MAX_NOTES,
        counter < u64::MAX,
        forall|i: int| 0 <= i < notes.len() ==> (#[trigger] notes[i]).midi_index != midi_index,
        forall|i: int| 0 <= i < notes.len() ==> (#[trigger] notes[i]).has_voice,
        forall|i: int| 0 <= i < notes.len() ==> (#[trigger] notes[i]).id <= counter,
        voices.len() + voices_per_key(params) <= params.voice_count,
        voice_ages_fit(voices, voices_per_key(params) as int),
        voices_per_key(params) <= u32::MAX,
    ensures
        ({
            let id = (counter + 1) as u64;
            let c = voices_per_key(params);
            let note = MidiNote { midi_index, velocity_bits, age: 0, id, has_voice: true };
            let (v1, n1, _placed) = add_voices_model(voices, pressed(notes, note), params, midi_index, id, c);
            let (v2, n2) = note_off_model(v1, n1, params.legato, midi_index);
            &&& n2 == aged_notes(notes)
            &&& v2.len() == voices.len() + c
            &&& forall|j: int|
                0 <= j < c ==> #[trigger] v2[voices.len() + j] == Voice {
                    midi_id: midi_index,
                    note_id: id,
                    age: (c - 1 - j) as u32,
                    super_index: j as usize,
                    time: 0,
                    released_time: Some(0),
                }
            &&& forall|i: int|
                0 <= i < voices.len() ==> #[trigger] v2[i] == if sounding_key(midi_index)(voices[i]) {
                    released_voice(Voice { age: (voices[i].age + c) as u32, ..voices[i] })
                } else {
                    Voice { age: (voices[i].age + c) as u32, ..voices[i] }
                }
        }),
{
    let id = (counter + 1) as u64;
    let c = voices_per_key(params);
    let note = MidiNote { midi_index, velocity_bits, age: 0, id, has_voice: true };
    lemma_press_then_release(notes, note);
    let n1 = pressed(notes, note);
    lemma_add_voices_with_room(voices, n1, params, midi_index, id, c);
    let v1 = add_voices_model(voices, n1, params, midi_index, id, c).0;
    let rest = aged_notes(notes);
    assert forall|j: int| 0 <= j < rest.len() implies (#[trigger] rest[j]).has_voice by {
        assert(notes[j].has_voice);
    }
    if exists|k: int| is_newest_empty(rest, k) {
        let k = choose|k: int| is_newest_empty(rest, k);
        assert(rest[k].has_voice);
    }
    assert(newest_empty(rest) is None);
    let v2 = note_off_model(v1, n1, params.legato, midi_index).0;
    assert(v2 == release_where(v1, sounding_key(midi_index)));
    assert forall|i: int| 0 <= i < voices.len() implies #[trigger] v2[i] == if sounding_key(midi_index)(
        voices[i],
    ) {
        released_voice(Voice { age: (voices[i].age + c) as u32, ..voices[i] })
    } else {
        Voice { age: (voices[i].age + c) as u32, ..voices[i] }
    } by {
        assert(v1[i] == Voice { age: (voices[i].age + c) as u32, ..voices[i] });
    }
    assert forall|j: int| 0 <= j < c implies #[trigger] v2[voices.len() + j] == Voice {
        midi_id: midi_index,
        note_id: id,
        age: (c - 1 - j) as u32,
        super_index: j as usize,
        time: 0,
        released_time: Some(0),
    } by {
        assert(v1[voices.len() + j] == Voice {
            midi_id: midi_index,
            note_id: id,
            age: (c - 1 - j) as u32,
            super_index: j as usize,
            time: 0,
            released_time: None,
        });
    }
}

/// The positions listed by `indices_where` are exactly those whose voice satisfies
/// `p`, in ascending order.
pub proof fn lemma_indices_where_exact(s: Seq<Voice>, p: spec_fn(Voice) -> bool)
    requires
        s.len() <= usize::MAX,
    ensures
        forall|j: int| 0 <= j < s.len() ==> (indices_where(s, p).contains(j as usize) <==> p(#[trigger] s[j])),
        forall|k: int| 0 <= k < indices_where(s, p).len() ==> (#[trigger] indices_where(s, p)[k]) < s.len(),
        forall|a: int, b: int|
            0 <= a < b < indices_where(s, p).len() ==> #[trigger] indices_where(s, p)[a] < #[trigger] indices_where(
                s,
                p,
            )[b],
    decreases s.len(),
{
    if s.len() > 0 {
        let d = s.drop_last();
        lemma_indices_where_exact(d, p);
        let r = indices_where(d, p);
        let n = s.len() - 1;
        assert forall|j: int| 0 <= j < s.len() implies (indices_where(s, p).contains(j as usize) <==> p(
            #[trigger] s[j],
        )) by {
            if j < n {
                assert(d[j] == s[j]);
                if p(s.last()) {
                    assert(indices_where(s, p) == r.push(n as usize));
                    if indices_where(s, p).contains(j as usize) {
                        let k = choose|k: int| 0 <= k < indices_where(s, p).len() && indices_where(s, p)[k] == j as usize;
                        if k < r.len() {
                            assert(r[k] == j as usize);
                        }
                    }
                    if r.contains(j as usize) {
                        let k = choose|k: int| 0 <= k < r.len() && r[k] == j as usize;
                        assert(indices_where(s, p)[k] == j as usize);
                    }
                }
            } else {
                if p(s.last()) {
                    assert(indices_where(s, p) == r.push(n as usize));
                    assert(indices_where(s, p)[r.len() as int] == n as usize);
                } else {
                    if r.contains(j as usize) {
                        let k = choose|k: int| 0 <= k < r.len() && r[k] == j as usize;
                        assert(r[k] < d.len());
                    }
                }
            }
        }
    }
}

/// Letting go of the voices of a note: every voice of the note that was still held
/// is released at its current time, no voice of the note is held afterwards, every
/// other voice is unchanged, and the positions returned are exactly those released.
pub proof fn lemma_release_note_exact(voices: Seq<Voice>, note_id: u64)
    requires
        voices.len() <= usize::MAX,
    ensures
        ({
            let after = release_where(voices, sounding_note(note_id));
            let listed = indices_where(voices, sounding_note(note_id));
            &&& after.len() == voices.len()
            &&& forall|i: int|
                0 <= i < voices.len() && voices[i].note_id == note_id && voices[i].released_time is None
                    ==> #[trigger] after[i] == Voice { released_time: Some(voices[i].time), ..voices[i] }
            &&& forall|i: int|
                0 <= i < voices.len() && (voices[i].note_id != note_id || voices[i].released_time is Some)
                    ==> #[trigger] after[i] == voices[i]
            &&& forall|i: int| 0 <= i < after.len() && after[i].note_id == note_id ==> (#[trigger] after[i]).released_time is Some
            &&& forall|j: int|
                0 <= j < voices.len() ==> (listed.contains(j as usize) <==> (#[trigger] voices[j]).note_id
                    == note_id && voices[j].released_time is None)
        }),
{
    lemma_indices_where_exact(voices, sounding_note(note_id));
}

/// Letting go of the voices of a key: every voice of the key that was still held is
/// released at its current time, no voice of the key is held afterwards, every other
/// voice is unchanged, and the positions returned are exactly those released.
pub proof fn lemma_release_key_exact(voices: Seq<Voice>, midi_id: u8)
    requires
        voices.len() <= usize::MAX,
    ensures
        ({
            let after = release_where(voices, sounding_key(midi_id));
            let listed = indices_where(voices, sounding_key(midi_id));
            &&& after.len() == voices.len()
            &&& forall|i: int|
                0 <= i < voices.len() && voices[i].midi_id == midi_id && voices[i].released_time is None
                    ==> #[trigger] after[i] == Voice { released_time: Some(voices[i].time), ..voices[i] }
            &&& forall|i: int|
                0 <= i < voices.len() && (voices[i].midi_id != midi_id || voices[i].released_time is Some)
                    ==> #[trigger] after[i] == voices[i]
            &&& forall|i: int| 0 <= i < after.len() && after[i].midi_id == midi_id ==> (#[trigger] after[i]).released_time is Some
            &&& forall|j: int|
                0 <= j < voices.len() ==> (listed.contains(j as usize) <==> (#[trigger] voices[j]).midi_id
                    == midi_id && voices[j].released_time is None)
        }),
{
    lemma_indices_where_exact(voices, sounding_key(midi_id));
}

/// A key starts as many voices as its unison size, but never more than the voice count.
pub proof fn lemma_voices_per_key_is_min(params: GlobalParams)
    ensures
        voices_per_key(params) <= params.unison_count,
        voices_per_key(params) <= params.voice_count,
        voices_per_key(params) == params.unison_count || voices_per_key(params) == params.voice_count,
{
}

/// Without legato, a voice taken for a new key when every voice is in use starts
/// over: at the stolen position stands a voice of the new key and note, at the given
/// unison position, of age 0 and time 0, held; every other voice is one step older
/// and otherwise unchanged. With legato the taken voice keeps its time and unison
/// position.
pub proof fn lemma_steal_restarts_unless_legato(
    voices: Seq<Voice>,
    notes: Seq<MidiNote>,
    params: GlobalParams,
    midi_index: u8,
    note_id: u64,
    super_index: usize,
)
    requires
        voices.len() >= params.voice_count,
        voices.len() > 0,
        voice_ages_fit(voices, 1),
    ensures
        ({
            let (after, _n, placed) = add_voice_model(voices, notes, params, midi_index, note_id, super_index);
            let k = steal_index(aged_voices(voices));
            &&& 0 <= k < voices.len()
            &&& after.len() == voices.len()
            &&& forall|i: int|
                0 <= i < voices.len() && i != k ==> #[trigger] after[i] == Voice {
                    age: (voices[i].age + 1) as u32,
                    ..voices[i]
                }
            &&& params.legato == LegatoMode::Off ==> {
                &&& placed == VoiceAllocation::Replaced(k as usize)
                &&& after[k] == Voice {
                    midi_id: midi_index,
                    note_id,
                    age: 0,
                    super_index,
                    time: 0,
                    released_time: None,
                }
            }
            &&& params.legato == LegatoMode::On ==> {
                &&& placed == VoiceAllocation::Retargeted(k as usize)
                &&& after[k] == Voice {
                    midi_id: midi_index,
                    note_id,
                    age: 0,
                    super_index: voices[k].super_index,
                    time: voices[k].time,
                    released_time: None,
                }
            }
        }),
{
    lemma_steal_index_in_range(aged_voices(voices));
}

/// Without legato, voices handed over when a key is let go start over for the
/// taking note: key and id of the taker, the same unison position, age 0, time 0,
/// held. With legato they keep their time and unison position. Voices of other
/// notes are unchanged.
pub proof fn lemma_hand_over_restarts_unless_legato(
    voices: Seq<Voice>,
    from_id: u64,
    to: MidiNote,
    legato: LegatoMode,
)
    ensures
        ({
            let after = hand_over(voices, from_id, to, legato);
            &&& after.len() == voices.len()
            &&& forall|i: int| 0 <= i < voices.len() && voices[i].note_id != from_id ==> #[trigger] after[i] == voices[i]
            &&& legato == LegatoMode::Off ==> forall|i: int|
                0 <= i < voices.len() && voices[i].note_id == from_id ==> #[trigger] after[i] == Voice {
                    midi_id: to.midi_index,
                    note_id: to.id,
                    age: 0,
                    super_index: voices[i].super_index,
                    time: 0,
                    released_time: None,
                }
            &&& legato == LegatoMode::On ==> forall|i: int|
                0 <= i < voices.len() && voices[i].note_id == from_id ==> #[trigger] after[i] == Voice {
                    midi_id: to.midi_index,
                    note_id: to.id,
                    age: 0,
                    super_index: voices[i].super_index,
                    time: voices[i].time,
                    released_time: None,
                }
        }),
{
}

/// Where a voice for a new key came from.
#[derive(Debug, Clone, Copy, PartialEq, Eq, Structural)]
pub enum VoiceAllocation {
    /// A new voice was appended.
    Pushed,
    /// The voice at this position was taken and restarted.
    Replaced(usize),
    /// The voice at this position was taken and glides to the new key.
    Retargeted(usize),
}

/// What letting go of a key did.
#[derive(Debug, PartialEq, Eq)]
pub enum NoteOff {
    /// No held note had that key.
    NotHeld,
    /// The voices at these positions went over to `note`, a key held without a voice.
    Handed { note: MidiNote, voices: Vec<usize> },
    /// The voices at these positions were let go.
    Released(Vec<usize>),
}

/// Every voice, with the held keys that own them.
pub struct VoiceList {
    pub voices: Vec<Voice>,
    pub notes: Notes,
    pub global_params: GlobalParams,
}

impl VoiceList {
    pub open spec fn wf(&self) -> bool {
        &&& self.notes.wf()
        &&& voices_wf(self.voices@)
    }

    pub fn new() -> (r: Self)
        ensures
            r.wf(),
            r.voices@ == Seq::<Voice>::empty(),
            r.notes.notes@ == Seq::<MidiNote>::empty(),
            r.notes.note_id_increment == 0,
            r.global_params == (GlobalParams { legato: LegatoMode::Off, voice_count: 32, unison_count: 1 }),
    {
        Self { voices: Vec::with_capacity(64), notes: Notes::new(), global_params: GlobalParams::default() }
    }

    /// Lets go every voice still held on this key; returns their positions.
    pub fn release_voices_by_note(&mut self, note: u8) -> (r: Vec<usize>)
        ensures
            old(self).wf() ==> final(self).wf(),
            final(self).voices@ == release_where(old(self).voices@, sounding_key(note)),
            r@ == indices_where(old(self).voices@, sounding_key(note)),
            forall|i: int|
                0 <= i < final(self).voices@.len() && final(self).voices@[i].midi_id == note
                    ==> (#[trigger] final(self).voices@[i]).released_time is Some,
            forall|j: int|
                0 <= j < old(self).voices@.len() ==> (r@.contains(j as usize) <==> (#[trigger] old(
                    self,
                ).voices@[j]).midi_id == note && old(self).voices@[j].released_time is None),
            final(self).notes == old(self).notes,
            final(self).global_params == old(self).global_params,
    {
        let ghost s = self.voices@;
        let n = self.voices.len();
        proof {
            lemma_release_key_exact(s, note);
        }
        let mut released: Vec<usize> = Vec::new();
        let mut i: usize = 0;
        while i < n
            invariant
                n == s.len(),
                n == self.voices@.len(),
                0 <= i <= n,
                s == old(self).voices@,
                old(self).wf() ==> voices_wf(s),
                self.notes == old(self).notes,
                self.global_params == old(self).global_params,
                forall|k: int| 0 <= k < i ==> #[trigger] self.voices@[k] == release_where(s, sounding_key(note))[k],
                forall|k: int| i <= k < n ==> #[trigger] self.voices@[k] == s[k],
                released@ == indices_where(s.subrange(0, i as int), sounding_key(note)),
            decreases n - i,
        {
            let mut v = self.voices[i];
            proof {
                assert(s.subrange(0, i + 1).drop_last() == s.subrange(0, i as int));
            }
            if v.midi_id == note && !v.is_released() {
                v.release();
                self.voices.set(i, v);
                released.push(i);
            }
            i = i + 1;
        }
        assert(s.subrange(0, n as int) == s);
        assert(self.voices@ == release_where(s, sounding_key(note)));
        released
    }

    /// Lets go every voice still held for this note; returns their positions.
    pub fn release_voice_by_id(&mut self, note_id: u64) -> (r: Vec<usize>)
        ensures
            old(self).wf() ==> final(self).wf(),
            final(self).voices@ == release_where(old(self).voices@, sounding_note(note_id)),
            r@ == indices_where(old(self).voices@, sounding_note(note_id)),
            forall|i: int|
                0 <= i < final(self).voices@.len() && final(self).voices@[i].note_id == note_id
                    ==> (#[trigger] final(self).voices@[i]).released_time is Some,
            forall|j: int|
                0 <= j < old(self).voices@.len() ==> (r@.contains(j as usize) <==> (#[trigger] old(
                    self,
                ).voices@[j]).note_id == note_id && old(self).voices@[j].released_time is None),
            final(self).notes == old(self).notes,
            final(self).global_params == old(self).global_params,
    {
        let ghost s = self.voices@;
        let n = self.voices.len();
        proof {
            lemma_release_note_exact(s, note_id);
        }
        let mut released: Vec<usize> = Vec::new();
        let mut i: usize = 0;
        while i < n
            invariant
                n == s.len(),
                n == self.voices@.len(),
                0 <= i <= n,
                s == old(self).voices@,
                old(self).wf() ==> voices_wf(s),
                self.notes == old(self).notes,
                self.global_params == old(self).global_params,
                forall|k: int| 0 <= k < i ==> #[trigger] self.voices@[k] == release_where(s, sounding_note(note_id))[k],
                forall|k: int| i <= k < n ==> #[trigger] self.voices@[k] == s[k],
                released@ == indices_where(s.subrange(0, i as int), sounding_note(note_id)),
            decreases n - i,
        {
            let mut v = self.voices[i];
            proof {
                assert(s.subrange(0, i + 1).drop_last() == s.subrange(0, i as int));
            }
            if v.note_id == note_id && !v.is_released() {
                v.release();
                self.voices.set(i, v);
                released.push(i);
            }
            i = i + 1;
        }
        assert(s.subrange(0, n as int) == s);
        assert(self.voices@ == release_where(s, sounding_note(note_id)));
        released
    }

    /// Drops the voices flagged as finished; the others keep their order and grow
    /// younger by the number dropped.
    pub fn remove_voices(&mut self, done: &Vec<bool>)
        requires
            done@.len() == old(self).voices@.len(),
            forall|i: int|
                0 <= i < done@.len() && !done@[i] ==> (#[trigger] old(self).voices@[i]).age >= (#[verifier::truncate] (count_set(done@) as u32)),
        ensures
            old(self).wf() ==> final(self).wf(),
            final(self).voices@ == keep_unflagged(old(self).voices@, done@).map_values(
                |v: Voice| younger_voice(v, #[verifier::truncate] (count_set(done@) as u32)),
            ),
            final(self).notes == old(self).notes,
            final(self).global_params == old(self).global_params,
    {
        let ghost s = self.voices@;
        let ghost bound: u32 = #[verifier::truncate] (count_set(done@) as u32);
        let n = self.voices.len();
        let mut kept: Vec<Voice> = Vec::new();
        let mut i: usize = 0;
        while i < n
            invariant
                n == s.len(),
                n == done@.len(),
                s == self.voices@,
                s == old(self).voices@,
                old(self).wf() ==> voices_wf(s),
                bound == (#[verifier::truncate] (count_set(done@) as u32)),
                forall|q: int| 0 <= q < n && !done@[q] ==> (#[trigger] s[q]).age >= bound,
                0 <= i <= n,
                kept@ == keep_unflagged(s.subrange(0, i as int), done@.subrange(0, i as int)),
                kept@.len() + count_set(done@.subrange(0, i as int)) == i,
                forall|k: int| 0 <= k < kept@.len() ==> (#[trigger] kept@[k]).age >= bound,
                old(self).wf() ==> forall|k: int| 0 <= k < kept@.len() ==> (#[trigger] kept@[k]).wf(),
            decreases n - i,
        {
            proof {
                assert(s.subrange(0, i + 1).drop_last() == s.subrange(0, i as int));
                assert(done@.subrange(0, i + 1).drop_last() == done@.subrange(0, i as int));
            }
            if !done[i] {
                kept.push(self.voices[i]);
            }
            i = i + 1;
        }
        assert(s.subrange(0, n as int) == s);
        assert(done@.subrange(0, n as int) == done@);
        let removed = n - kept.len();
        let by = #[verifier::truncate] (removed as u32);
        let m = kept.len();
        let mut j: usize = 0;
        let ghost k0 = kept@;
        while j < m
            invariant
                m == kept@.len(),
                m == k0.len(),
                0 <= j <= m,
                by == bound,
                forall|k: int| 0 <= k < m ==> (#[trigger] k0[k]).age >= by,
                old(self).wf() ==> forall|k: int| 0 <= k < m ==> (#[trigger] k0[k]).wf(),
                forall|k: int| 0 <= k < j ==> #[trigger] kept@[k] == younger_voice(k0[k], by),
                forall|k: int| j <= k < m ==> #[trigger] kept@[k] == k0[k],
            decreases m - j,
        {
            let mut v = kept[j];
            v.age = v.age - by;
            kept.set(j, v);
            j = j + 1;
        }
        assert(kept@ == k0.map_values(|v: Voice| younger_voice(v, bound)));
        assert(old(self).wf() ==> voices_wf(kept@)) by {
            if old(self).wf() {
                assert forall|k: int| 0 <= k < kept@.len() implies (#[trigger] kept@[k]).wf() by {
                    assert(k0[k].wf());
                }
            }
        }
        self.voices = kept;
    }

    /// Every voice plays one more sample.
    pub fn advance_time(&mut self)
        requires
            forall|i: int| 0 <= i < old(self).voices@.len() ==> (#[trigger] old(self).voices@[i]).time < u32::MAX,
        ensures
            old(self).wf() ==> final(self).wf(),
            final(self).voices@ == old(self).voices@.map_values(
                |v: Voice| Voice { time: (v.time + 1) as u32, ..v },
            ),
            final(self).notes == old(self).notes,
            final(self).global_params == old(self).global_params,
    {
        let ghost s = self.voices@;
        let n = self.voices.len();
        let mut i: usize = 0;
        while i < n
            invariant
                n == s.len(),
                n == self.voices@.len(),
                0 <= i <= n,
                s == old(self).voices@,
                old(self).wf() ==> voices_wf(s),
                forall|k: int| 0 <= k < n ==> (#[trigger] s[k]).time < u32::MAX,
                self.notes == old(self).notes,
                self.global_params == old(self).global_params,
                forall|k: int| 0 <= k < i ==> #[trigger] self.voices@[k] == (Voice { time: (s[k].time + 1) as u32, ..s[k] }),
                forall|k: int| i <= k < n ==> #[trigger] self.voices@[k] == s[k],
            decreases n - i,
        {
            let mut v = self.voices[i];
            v.tick();
            self.voices.set(i, v);
            i = i + 1;
        }
        assert(self.voices@ == s.map_values(|v: Voice| Voice { time: (v.time + 1) as u32, ..v }));
    }

    /// Starts one voice for a key: every voice grows one step older; while fewer
    /// than `voice_count` sound a new one is appended, else the oldest released
    /// voice (or, if none is released, the oldest held one) is taken, its note
    /// marked voiceless, and the voice restarted, or with legato handed over.
    pub fn add_voice(&mut self, midi_index: u8, note_id: u64, super_index: usize) -> (r: VoiceAllocation)
        requires
            voice_ages_fit(old(self).voices@, 1),
            old(self).voices@.len() > 0 || old(self).global_params.voice_count > 0,
        ensures
            old(self).wf() ==> final(self).wf(),
            old(self).notes.wf() ==> final(self).notes.wf(),
            (final(self).voices@, final(self).notes.notes@, r) == add_voice_model(
                old(self).voices@,
                old(self).notes.notes@,
                old(self).global_params,
                midi_index,
                note_id,
                super_index,
            ),
            final(self).notes.note_id_increment == old(self).notes.note_id_increment,
            final(self).global_params == old(self).global_params,
            final(self).voices@.len() == if old(self).voices@.len() < old(self).global_params.voice_count {
                old(self).voices@.len() + 1
            } else {
                old(self).voices@.len()
            },
            old(self).voices@.len() >= old(self).global_params.voice_count && old(self).global_params.legato
                == LegatoMode::Off ==> r is Replaced,
            r matches VoiceAllocation::Replaced(k) ==> k < final(self).voices@.len() && final(self).voices@[k as int]
                == (Voice { midi_id: midi_index, note_id, age: 0, super_index, time: 0, released_time: None }),
            old(self).notes.ids_unique() ==> final(self).notes.ids_unique(),
            old(self).notes.ids_issued() ==> final(self).notes.ids_issued(),
    {
        proof {
            if old(self).voices@.len() >= old(self).global_params.voice_count {
                lemma_steal_restarts_unless_legato(
                    old(self).voices@,
                    old(self).notes.notes@,
                    old(self).global_params,
                    midi_index,
                    note_id,
                    super_index,
                );
            }
        }
        proof {
            lemma_add_voice_shape(
                old(self).voices@,
                old(self).notes.notes@,
                old(self).global_params,
                midi_index,
                note_id,
                super_index,
            );
        }
        let ghost s = self.voices@;
        let ghost aged = aged_voices(s);
        let n = self.voices.len();
        let mut i: usize = 0;
        while i < n
            invariant
                n == s.len(),
                n == self.voices@.len(),
                0 <= i <= n,
                s == old(self).voices@,
                aged == aged_voices(s),
                voice_ages_fit(s, 1),
                self.notes == old(self).notes,
                self.global_params == old(self).global_params,
                forall|k: int| 0 <= k < i ==> #[trigger] self.voices@[k] == aged[k],
                forall|k: int| i <= k < n ==> #[trigger] self.voices@[k] == s[k],
            decreases n - i,
        {
            let mut v = self.voices[i];
            v.age = v.age + 1;
            self.voices.set(i, v);
            i = i + 1;
        }
        assert(self.voices@ == aged);
        assert(old(self).wf() ==> voices_wf(aged)) by {
            if old(self).wf() {
                assert forall|k: int| 0 <= k < aged.len() implies (#[trigger] aged[k]).wf() by {
                    assert(s[k].wf());
                }
            }
        }
        if self.voices.len() < self.global_params.voice_count {
            self.voices.push(Voice::new(midi_index, note_id, super_index));
            return VoiceAllocation::Pushed;
        }
        let mut best_released: Option<usize> = None;
        let mut best_released_age: u32 = 0;
        let mut best_held: Option<usize> = None;
        let mut best_held_age: u32 = 0;
        let mut j: usize = 0;
        while j < n
            invariant
                n == aged.len(),
                n == self.voices@.len(),
                self.voices@ == aged,
                0 <= j <= n,
                match best_released {
                    None => best_released_age == 0 && forall|q: int|
                        0 <= q < j ==> (#[trigger] aged[q]).released_time is None,
                    Some(b) => {
                        &&& b < j
                        &&& best_released_age == aged[b as int].age
                        &&& aged[b as int].released_time is Some
                        &&& forall|q: int|
                            0 <= q < j && (#[trigger] aged[q]).released_time is Some ==> aged[q].age <= aged[b as int].age
                        &&& forall|q: int|
                            b < q < j && (#[trigger] aged[q]).released_time is Some ==> aged[q].age < aged[b as int].age
                    },
                },
                match best_held {
                    None => best_held_age == 0 && forall|q: int|
                        0 <= q < j ==> (#[trigger] aged[q]).released_time is Some,
                    Some(b) => {
                        &&& b < j
                        &&& best_held_age == aged[b as int].age
                        &&& aged[b as int].released_time is None
                        &&& forall|q: int|
                            0 <= q < j && (#[trigger] aged[q]).released_time is None ==> aged[q].age <= aged[b as int].age
                        &&& forall|q: int|
                            b < q < j && (#[trigger] aged[q]).released_time is None ==> aged[q].age < aged[b as int].age
                    },
                },
            decreases n - j,
        {
            let v = self.voices[j];
            if v.is_released() {
                if v.age >= best_released_age {
                    best_released = Some(j);
                    best_released_age = v.age;
                }
            } else {
                if v.age >= best_held_age {
                    best_held = Some(j);
                    best_held_age = v.age;
                }
            }
            j = j + 1;
        }
        let k: usize = match best_released {
            Some(b) => {
                proof {
                    lemma_oldest_of_is(aged, b as int, true);
                }
                b
            },
            None => {
                proof {
                    lemma_oldest_of_none(aged, true);
                }
                match best_held {
                    Some(b) => {
                        proof {
                            lemma_oldest_of_is(aged, b as int, false);
                        }
                        b
                    },
                    None => {
                        proof {
                            assert(aged[0].released_time is Some);
                        }
                        0
                    },
                }
            },
        };
        assert(k as int == steal_index(aged));
        let stolen = self.voices[k];
        let ghost notes_before = self.notes.notes@;
        if let Some(old_note) = self.notes.get_by_id(stolen.note_id) {
            old_note.has_voice = false;
        }
        proof {
            let t = self.notes.notes@;
            assert(t == note_voice_taken(notes_before, stolen.note_id));
            if old(self).notes.wf() {
                assert forall|a: int, b: int| 0 <= a < t.len() && 0 <= b < t.len() && a != b implies #[trigger] t[a].age
                    != #[trigger] t[b].age by {
                    assert(t[a].age == notes_before[a].age);
                    assert(t[b].age == notes_before[b].age);
                }
            }
        }
        match self.global_params.legato {
            LegatoMode::Off => {
                self.voices.set(k, Voice::new(midi_index, note_id, super_index));
                VoiceAllocation::Replaced(k)
            },
            LegatoMode::On => {
                let mut v = stolen;
                v.move_to_new_note(midi_index, note_id);
                self.voices.set(k, v);
                VoiceAllocation::Retargeted(k)
            },
        }
    }

    /// Starts the voices of one key: its unison size, capped by the voice count.
    pub fn add_multiple_voices(&mut self, midi_index: u8, note_id: u64) -> (r: Vec<VoiceAllocation>)
        requires
            voices_per_key(old(self).global_params) <= u32::MAX,
            voice_ages_fit(old(self).voices@, voices_per_key(old(self).global_params) as int),
        ensures
            old(self).wf() ==> final(self).wf(),
            old(self).notes.wf() ==> final(self).notes.wf(),
            (final(self).voices@, final(self).notes.notes@, r@) == add_voices_model(
                old(self).voices@,
                old(self).notes.notes@,
                old(self).global_params,
                midi_index,
                note_id,
                voices_per_key(old(self).global_params),
            ),
            final(self).notes.note_id_increment == old(self).notes.note_id_increment,
            final(self).global_params == old(self).global_params,
            r@.len() <= old(self).global_params.unison_count,
            r@.len() <= old(self).global_params.voice_count,
            r@.len() == old(self).global_params.unison_count || r@.len() == old(self).global_params.voice_count,
            r@.len() == voices_per_key(old(self).global_params),
            old(self).voices@.len() <= old(self).global_params.voice_count ==> final(self).voices@.len()
                <= old(self).global_params.voice_count,
            old(self).notes.ids_unique() ==> final(self).notes.ids_unique(),
            old(self).notes.ids_issued() ==> final(self).notes.ids_issued(),
    {
        proof {
            lemma_voices_per_key_is_min(old(self).global_params);
        }
        proof {
            lemma_add_voices_shape(
                old(self).voices@,
                old(self).notes.notes@,
                old(self).global_params,
                midi_index,
                note_id,
                voices_per_key(old(self).global_params),
            );
        }
        let count = if self.global_params.unison_count < self.global_params.voice_count {
            self.global_params.unison_count
        } else {
            self.global_params.voice_count
        };
        let mut placed: Vec<VoiceAllocation> = Vec::new();
        let mut i: usize = 0;
        while i < count
            invariant
                count == voices_per_key(old(self).global_params),
                count <= u32::MAX,
                0 <= i <= count,
                old(self).wf() ==> self.wf(),
                old(self).notes.wf() ==> self.notes.wf(),
                self.global_params == old(self).global_params,
                self.notes.note_id_increment == old(self).notes.note_id_increment,
                voice_ages_fit(self.voices@, (count - i) as int),
                (self.voices@, self.notes.notes@, placed@) == add_voices_model(
                    old(self).voices@,
                    old(self).notes.notes@,
                    old(self).global_params,
                    midi_index,
                    note_id,
                    i as nat,
                ),
            decreases count - i,
        {
            proof {
                lemma_add_voice_ages(
                    self.voices@,
                    self.notes.notes@,
                    self.global_params,
                    midi_index,
                    note_id,
                    i,
                    (count - i - 1) as int,
                );
            }
            let a = self.add_voice(midi_index, note_id, i);
            placed.push(a);
            i = i + 1;
        }
        placed
    }

    /// Presses a key: it is held under a fresh id and its voices start.
    pub fn note_on(&mut self, midi_index: u8, velocity_bits: u32) -> (r: Vec<VoiceAllocation>)
        requires
            old(self).notes.wf(),
            ages_below_max(old(self).notes.notes@),
            old(self).notes.note_id_increment < u64::MAX,
            voices_per_key(old(self).global_params) <= u32::MAX,
            voice_ages_fit(old(self).voices@, voices_per_key(old(self).global_params) as int),
        ensures
            final(self).notes.wf(),
            old(self).wf() ==> final(self).wf(),
            final(self).notes.note_id_increment == old(self).notes.note_id_increment + 1,
            (final(self).voices@, final(self).notes.notes@, r@) == add_voices_model(
                old(self).voices@,
                pressed(
                    old(self).notes.notes@,
                    MidiNote {
                        midi_index,
                        velocity_bits,
                        age: 0,
                        id: (old(self).notes.note_id_increment + 1) as u64,
                        has_voice: true,
                    },
                ),
                old(self).global_params,
                midi_index,
                (old(self).notes.note_id_increment + 1) as u64,
                voices_per_key(old(self).global_params),
            ),
            final(self).global_params == old(self).global_params,
            r@.len() <= old(self).global_params.unison_count,
            r@.len() <= old(self).global_params.voice_count,
            r@.len() == old(self).global_params.unison_count || r@.len() == old(self).global_params.voice_count,
            r@.len() == voices_per_key(old(self).global_params),
            old(self).voices@.len() <= old(self).global_params.voice_count ==> final(self).voices@.len()
                <= old(self).global_params.voice_count,
            old(self).notes.ids_unique() && old(self).notes.ids_issued() ==> final(self).notes.ids_unique()
                && final(self).notes.ids_issued(),
    {
        proof {
            lemma_voices_per_key_is_min(old(self).global_params);
        }
        let note_id = self.notes.add_note(midi_index, velocity_bits);
        self.add_multiple_voices(midi_index, note_id)
    }

    /// Lets go of a key. Its first held note is dropped; if that note had voices
    /// and some held note has none, the youngest such note takes them over
    /// (restarted, or with legato gliding); otherwise every voice still held on
    /// the key is let go.
    pub fn note_off(&mut self, midi_index: u8) -> (r: NoteOff)
        ensures
            old(self).wf() ==> final(self).wf(),
            final(self).notes.note_id_increment == old(self).notes.note_id_increment,
            final(self).global_params == old(self).global_params,
            old(self).notes.ids_unique() ==> final(self).notes.ids_unique(),
            old(self).notes.ids_issued() ==> final(self).notes.ids_issued(),
            (final(self).voices@, final(self).notes.notes@) == note_off_model(
                old(self).voices@,
                old(self).notes.notes@,
                old(self).global_params.legato,
                midi_index,
            ),
            match first_where(old(self).notes.notes@, with_key(midi_index)) {
                None => {
                    &&& r == NoteOff::NotHeld
                    &&& final(self).voices@ == old(self).voices@
                    &&& final(self).notes.notes@ == old(self).notes.notes@
                },
                Some(k) => {
                    let gone = old(self).notes.notes@[k];
                    let rest = old(self).notes.notes@.remove(
                        first_where(old(self).notes.notes@, with_id(gone.id))->0,
                    );
                    if gone.has_voice && newest_empty(rest) is Some {
                        let e = newest_empty(rest)->0;
                        let taker = MidiNote { has_voice: true, ..rest[e] };
                        &&& final(self).notes.notes@ == rest.update(e, taker)
                        &&& final(self).voices@ == hand_over(
                            old(self).voices@,
                            gone.id,
                            taker,
                            old(self).global_params.legato,
                        )
                        &&& r matches NoteOff::Handed { note, voices } && note == taker && voices@
                            == indices_where(old(self).voices@, of_note(gone.id))
                    } else {
                        &&& final(self).notes.notes@ == rest
                        &&& final(self).voices@ == release_where(old(self).voices@, sounding_key(midi_index))
                        &&& r matches NoteOff::Released(voices) && voices@ == indices_where(
                            old(self).voices@,
                            sounding_key(midi_index),
                        )
                    }
                },
            },
    {
        let removed = self.notes.remove_note_by_midi(midi_index);
        match removed {
            None => NoteOff::NotHeld,
            Some(gone) => {
                if gone.has_voice {
                    let ghost rest = self.notes.notes@;
                    let taker = match self.notes.get_newest_empty() {
                        Some(n) => {
                            n.has_voice = true;
                            Some(*n)
                        },
                        None => None,
                    };
                    if let Some(taker) = taker {
                        proof {
                            let t = self.notes.notes@;
                            let e = newest_empty(rest)->0;
                            assert(t == rest.update(e, taker));
                            if old(self).wf() {
                                assert forall|a: int, b: int|
                                    0 <= a < t.len() && 0 <= b < t.len() && a != b implies #[trigger] t[a].age
                                    != #[trigger] t[b].age by {
                                    assert(t[a].age == rest[a].age);
                                    assert(t[b].age == rest[b].age);
                                }
                            }
                        }
                        let legato = self.global_params.legato;
                        let ghost s = self.voices@;
                        let ghost ns = self.notes.notes@;
                        let n = self.voices.len();
                        let mut handed: Vec<usize> = Vec::new();
                        let mut i: usize = 0;
                        while i < n
                            invariant
                                n == s.len(),
                                n == self.voices@.len(),
                                0 <= i <= n,
                                s == old(self).voices@,
                                old(self).wf() ==> voices_wf(s),
                                legato == self.global_params.legato,
                                self.global_params == old(self).global_params,
                                self.notes.notes@ == ns,
                                old(self).wf() ==> self.notes.wf(),
                                self.notes.note_id_increment == old(self).notes.note_id_increment,
                                forall|k: int|
                                    0 <= k < i ==> #[trigger] self.voices@[k] == hand_over(s, gone.id, taker, legato)[k],
                                forall|k: int| i <= k < n ==> #[trigger] self.voices@[k] == s[k],
                                handed@ == indices_where(s.subrange(0, i as int), of_note(gone.id)),
                            decreases n - i,
                        {
                            let v = self.voices[i];
                            proof {
                                assert(s.subrange(0, i + 1).drop_last() == s.subrange(0, i as int));
                            }
                            if v.note_id == gone.id {
                                match legato {
                                    LegatoMode::Off => {
                                        self.voices.set(i, Voice::new(taker.midi_index, taker.id, v.super_index));
                                    },
                                    LegatoMode::On => {
                                        let mut w = v;
                                        w.move_to_new_note(taker.midi_index, taker.id);
                                        self.voices.set(i, w);
                                    },
                                }
                                handed.push(i);
                            }
                            i = i + 1;
                        }
                        assert(s.subrange(0, n as int) == s);
                        assert(self.voices@ == hand_over(s, gone.id, taker, legato));
                        assert(old(self).wf() ==> voices_wf(self.voices@)) by {
                            if old(self).wf() {
                                assert forall|k: int| 0 <= k < n implies (#[trigger] self.voices@[k]).wf() by {
                                    assert(s[k].wf());
                                }
                            }
                        }
                        return NoteOff::Handed { note: taker, voices: handed };
                    }
                }
                let released = self.release_voices_by_note(midi_index);
                NoteOff::Released(released)
            },
        }
    }
}

} // verus!
