use foam::voice::notes::MAX_NOTES;
use foam::voice::voices::{NoteOff, VoiceAllocation, VoiceList};
use foam::voice::{GlobalParams, LegatoMode, MidiNote, Notes, Voice};

fn velocity(v: f32) -> u32 {
    v.to_bits()
}

#[test]
fn notes_start_empty() {
    let notes = Notes::new();
    assert!(notes.notes.is_empty());
    assert_eq!(notes.note_id_increment, 0);
}

#[test]
fn add_note_hands_out_increasing_ids_and_ages_the_others() {
    let mut notes = Notes::new();
    assert_eq!(notes.add_note(60, velocity(0.5)), 1);
    assert_eq!(notes.add_note(64, velocity(0.7)), 2);
    assert_eq!(notes.add_note(67, velocity(1.0)), 3);
    let keys: Vec<u8> = notes.notes.iter().map(|n| n.midi_index).collect();
    let ages: Vec<u32> = notes.notes.iter().map(|n| n.age).collect();
    let ids: Vec<u64> = notes.notes.iter().map(|n| n.id).collect();
    assert_eq!(keys, vec![60, 64, 67]);
    assert_eq!(ages, vec![2, 1, 0]);
    assert_eq!(ids, vec![1, 2, 3]);
    assert!(notes.notes.iter().all(|n| n.has_voice));
    assert_eq!(f32::from_bits(notes.notes[1].velocity_bits), 0.7);
}

#[test]
fn add_note_with_id_keeps_the_given_id() {
    let mut notes = Notes::new();
    notes.add_note_with_id(10, velocity(0.1), 77);
    assert_eq!(notes.notes[0].id, 77);
    assert_eq!(notes.notes[0].age, 0);
    assert_eq!(notes.note_id_increment, 0);
}

#[test]
fn a_full_list_drops_its_oldest_note() {
    let mut notes = Notes::new();
    for i in 0..MAX_NOTES {
        notes.add_note((i % 128) as u8, velocity(0.5));
    }
    assert_eq!(notes.notes.len(), MAX_NOTES);
    assert!(notes.notes.iter().any(|n| n.id == 1));
    let id = notes.add_note(5, velocity(0.25));
    assert_eq!(id, 129);
    assert_eq!(notes.notes.len(), MAX_NOTES);
    assert!(!notes.notes.iter().any(|n| n.id == 1));
    let last = notes.notes[MAX_NOTES - 1];
    assert_eq!(last.id, 129);
    assert_eq!(last.age, 0);
    for w in notes.notes[..MAX_NOTES - 1].windows(2) {
        assert!(w[0].age < w[1].age);
    }
    assert_eq!(notes.notes[0].age, 1);
    assert_eq!(notes.notes[MAX_NOTES - 2].age, 127);
}

#[test]
fn remove_note_by_midi_takes_the_first_note_of_the_key() {
    let mut notes = Notes::new();
    notes.add_note(60, velocity(0.5));
    notes.add_note(62, velocity(0.5));
    notes.add_note(60, velocity(0.9));
    let gone = notes.remove_note_by_midi(60).unwrap();
    assert_eq!(gone.id, 1);
    assert_eq!(gone.age, 2);
    let ids: Vec<u64> = notes.notes.iter().map(|n| n.id).collect();
    assert_eq!(ids, vec![2, 3]);
    assert_eq!(notes.remove_note_by_midi(61), None);
    assert_eq!(notes.notes.len(), 2);
}

#[test]
fn remove_note_by_id_takes_only_that_note() {
    let mut notes = Notes::new();
    notes.add_note(60, velocity(0.5));
    notes.add_note(62, velocity(0.5));
    notes.remove_note_by_id(2);
    assert_eq!(notes.notes.len(), 1);
    assert_eq!(notes.notes[0].id, 1);
    notes.remove_note_by_id(9);
    assert_eq!(notes.notes.len(), 1);
}

#[test]
fn remove_notes_by_midi_takes_every_note_of_the_key() {
    let mut notes = Notes::new();
    notes.add_note(60, velocity(0.5));
    notes.add_note(62, velocity(0.5));
    notes.add_note(60, velocity(0.5));
    notes.add_note(64, velocity(0.5));
    notes.remove_notes_by_midi(60);
    let keys: Vec<u8> = notes.notes.iter().map(|n| n.midi_index).collect();
    assert_eq!(keys, vec![62, 64]);
}

#[test]
fn get_by_id_changes_the_note_in_place() {
    let mut notes = Notes::new();
    notes.add_note(60, velocity(0.5));
    notes.add_note(62, velocity(0.5));
    notes.get_by_id(2).unwrap().has_voice = false;
    assert!(notes.notes[0].has_voice);
    assert!(!notes.notes[1].has_voice);
    assert!(notes.get_by_id(5).is_none());
}

#[test]
fn get_newest_empty_picks_the_youngest_voiceless_note() {
    let mut notes = Notes::new();
    notes.add_note(60, velocity(0.5));
    notes.add_note(62, velocity(0.5));
    notes.add_note(64, velocity(0.5));
    assert!(notes.get_newest_empty().is_none());
    notes.get_by_id(1).unwrap().has_voice = false;
    notes.get_by_id(2).unwrap().has_voice = false;
    let newest = notes.get_newest_empty().unwrap();
    assert_eq!(newest.id, 2);
    newest.has_voice = true;
    assert!(notes.notes[1].has_voice);
}

#[test]
fn pressing_and_releasing_a_free_key_restores_the_notes_one_step_older() {
    let mut notes = Notes::new();
    notes.add_note(60, velocity(0.5));
    notes.add_note(62, velocity(0.5));
    let before: Vec<MidiNote> = notes.notes.clone();
    let id = notes.add_note(70, velocity(0.3));
    let gone = notes.remove_note_by_midi(70).unwrap();
    assert_eq!(gone.id, id);
    assert_eq!(gone.age, 0);
    assert_eq!(notes.notes.len(), before.len());
    for (now, was) in notes.notes.iter().zip(before.iter()) {
        assert_eq!(now.age, was.age + 1);
        assert_eq!(now.id, was.id);
        assert_eq!(now.midi_index, was.midi_index);
    }
}

fn list_with(voice_count: usize, unison_count: usize, legato: LegatoMode) -> VoiceList {
    let mut list = VoiceList::new();
    list.global_params = GlobalParams { legato, voice_count, unison_count };
    list
}

#[test]
fn global_params_default() {
    let p = GlobalParams::default();
    assert_eq!(p.legato, LegatoMode::Off);
    assert_eq!(p.voice_count, 32);
    assert_eq!(p.unison_count, 1);
    assert_eq!(LegatoMode::default(), LegatoMode::Off);
}

#[test]
fn note_on_pushes_one_voice_per_unison_position() {
    let mut list = list_with(8, 3, LegatoMode::Off);
    let placed = list.note_on(60, velocity(1.0));
    assert_eq!(placed, vec![VoiceAllocation::Pushed; 3]);
    let supers: Vec<usize> = list.voices.iter().map(|v| v.super_index).collect();
    let ages: Vec<u32> = list.voices.iter().map(|v| v.age).collect();
    assert_eq!(supers, vec![0, 1, 2]);
    assert_eq!(ages, vec![2, 1, 0]);
    assert!(list.voices.iter().all(|v| v.note_id == 1 && v.midi_id == 60));
}

#[test]
fn unison_is_capped_by_the_voice_count() {
    let mut list = list_with(2, 5, LegatoMode::Off);
    let placed = list.note_on(60, velocity(1.0));
    assert_eq!(placed.len(), 2);
    assert_eq!(list.voices.len(), 2);
}

#[test]
fn a_full_list_steals_the_oldest_held_voice() {
    let mut list = list_with(2, 1, LegatoMode::Off);
    list.note_on(60, velocity(1.0));
    list.note_on(62, velocity(1.0));
    let placed = list.note_on(64, velocity(1.0));
    assert_eq!(placed, vec![VoiceAllocation::Replaced(0)]);
    assert_eq!(list.voices.len(), 2);
    assert_eq!(list.voices[0].midi_id, 64);
    assert_eq!(list.voices[0].note_id, 3);
    assert_eq!(list.voices[0].age, 0);
    assert_eq!(list.voices[1].age, 1);
    let first = list.notes.notes.iter().find(|n| n.id == 1).unwrap();
    assert!(!first.has_voice);
}

#[test]
fn a_full_list_steals_a_released_voice_first() {
    let mut list = list_with(2, 1, LegatoMode::Off);
    list.note_on(60, velocity(1.0));
    list.note_on(62, velocity(1.0));
    let released = list.release_voices_by_note(62);
    assert_eq!(released, vec![1]);
    let placed = list.note_on(64, velocity(1.0));
    assert_eq!(placed, vec![VoiceAllocation::Replaced(1)]);
    assert_eq!(list.voices[0].midi_id, 60);
    assert_eq!(list.voices[1].midi_id, 64);
}

#[test]
fn legato_steals_by_retargeting() {
    let mut list = list_with(1, 1, LegatoMode::On);
    list.note_on(60, velocity(1.0));
    list.voices[0].tick();
    list.voices[0].tick();
    let placed = list.note_on(67, velocity(1.0));
    assert_eq!(placed, vec![VoiceAllocation::Retargeted(0)]);
    let v = list.voices[0];
    assert_eq!(v.midi_id, 67);
    assert_eq!(v.note_id, 2);
    assert_eq!(v.age, 0);
    assert_eq!(v.time, 2);
    assert_eq!(v.released_time, None);
}

#[test]
fn note_off_of_an_unheld_key_does_nothing() {
    let mut list = list_with(4, 1, LegatoMode::Off);
    list.note_on(60, velocity(1.0));
    assert_eq!(list.note_off(61), NoteOff::NotHeld);
    assert_eq!(list.voices.len(), 1);
    assert_eq!(list.notes.notes.len(), 1);
}

#[test]
fn note_off_releases_the_voices_of_the_key() {
    let mut list = list_with(4, 2, LegatoMode::Off);
    list.note_on(60, velocity(1.0));
    list.note_on(62, velocity(1.0));
    list.advance_time();
    list.advance_time();
    let outcome = list.note_off(60);
    assert_eq!(outcome, NoteOff::Released(vec![0, 1]));
    assert_eq!(list.voices[0].released_time, Some(2));
    assert_eq!(list.voices[1].released_time, Some(2));
    assert_eq!(list.voices[2].released_time, None);
    assert_eq!(list.voices[0].time_since_release(), Some(0));
    list.advance_time();
    assert_eq!(list.voices[0].time_since_release(), Some(1));
    assert_eq!(list.voices[2].time_since_release(), None);
    assert_eq!(list.notes.notes.len(), 1);
}

#[test]
fn note_off_hands_the_voice_to_a_voiceless_key() {
    let mut list = list_with(1, 1, LegatoMode::Off);
    list.note_on(60, velocity(1.0));
    list.note_on(62, velocity(1.0));
    assert!(!list.notes.notes[0].has_voice);
    let outcome = list.note_off(62);
    match outcome {
        NoteOff::Handed { note, voices } => {
            assert_eq!(note.midi_index, 60);
            assert_eq!(note.id, 1);
            assert!(note.has_voice);
            assert_eq!(voices, vec![0]);
        }
        other => panic!("unexpected {:?}", other),
    }
    assert_eq!(list.voices[0].midi_id, 60);
    assert_eq!(list.voices[0].note_id, 1);
    assert!(list.notes.notes[0].has_voice);
}

#[test]
fn release_voice_by_id_releases_only_that_note() {
    let mut list = list_with(4, 1, LegatoMode::Off);
    list.note_on(60, velocity(1.0));
    list.note_on(60, velocity(1.0));
    let released = list.release_voice_by_id(2);
    assert_eq!(released, vec![1]);
    assert!(!list.voices[0].is_released());
    assert!(list.voices[1].is_released());
    assert_eq!(list.release_voice_by_id(2), Vec::<usize>::new());
}

#[test]
fn remove_voices_drops_the_finished_and_makes_the_rest_younger() {
    let mut list = list_with(4, 1, LegatoMode::Off);
    list.note_on(60, velocity(1.0));
    list.note_on(62, velocity(1.0));
    list.note_on(64, velocity(1.0));
    list.remove_voices(&vec![false, false, true]);
    let keys: Vec<u8> = list.voices.iter().map(|v| v.midi_id).collect();
    let ages: Vec<u32> = list.voices.iter().map(|v| v.age).collect();
    assert_eq!(keys, vec![60, 62]);
    assert_eq!(ages, vec![1, 0]);
}

#[test]
fn voice_lifecycle() {
    let mut v = Voice::new(60, 9, 2);
    assert_eq!(v.age, 0);
    assert!(!v.is_released());
    v.tick();
    v.tick();
    v.release();
    assert_eq!(v.released_time, Some(2));
    v.tick();
    assert_eq!(v.time_since_release(), Some(1));
    v.move_to_new_note(64, 10);
    assert_eq!(v.midi_id, 64);
    assert_eq!(v.note_id, 10);
    assert_eq!(v.super_index, 2);
    assert_eq!(v.time, 3);
    assert!(!v.is_released());
}

#[test]
fn pressing_and_releasing_a_key_lets_go_of_its_voices() {
    let mut list = list_with(8, 2, LegatoMode::Off);
    list.note_on(60, velocity(1.0));
    list.note_on(62, velocity(1.0));
    let notes_before: Vec<MidiNote> = list.notes.notes.clone();
    let voices_before: Vec<Voice> = list.voices.clone();
    let placed = list.note_on(70, velocity(0.5));
    assert_eq!(placed, vec![VoiceAllocation::Pushed, VoiceAllocation::Pushed]);
    let outcome = list.note_off(70);
    assert_eq!(outcome, NoteOff::Released(vec![4, 5]));
    assert_eq!(list.notes.notes.len(), notes_before.len());
    for (now, was) in list.notes.notes.iter().zip(notes_before.iter()) {
        assert_eq!(now.age, was.age + 1);
        assert_eq!(now.id, was.id);
    }
    assert_eq!(list.voices.len(), voices_before.len() + 2);
    for (now, was) in list.voices.iter().zip(voices_before.iter()) {
        assert_eq!(now.age, was.age + 2);
        assert_eq!(now.released_time, None);
    }
    assert_eq!(list.voices[4].released_time, Some(0));
    assert_eq!(list.voices[5].released_time, Some(0));
    assert_eq!(list.voices[4].age, 1);
    assert_eq!(list.voices[5].age, 0);
}

#[test]
fn legato_hand_over_keeps_the_voice_playing() {
    let mut list = list_with(1, 1, LegatoMode::On);
    list.note_on(60, velocity(1.0));
    list.advance_time();
    list.note_on(62, velocity(1.0));
    list.advance_time();
    let outcome = list.note_off(62);
    match outcome {
        NoteOff::Handed { note, voices } => {
            assert_eq!(note.id, 1);
            assert_eq!(voices, vec![0]);
        }
        other => panic!("unexpected {:?}", other),
    }
    assert_eq!(list.voices[0].midi_id, 60);
    assert_eq!(list.voices[0].time, 2);
}
