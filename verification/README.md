# foam

Voice and note bookkeeping for an eight-operator FM synthesizer plugin, with
contracts proved by Verus.

- `src/voice/notes.rs`: the held keys (`Notes`): pressing a key under a fresh id,
  dropping the oldest key when 128 are held, releasing keys, finding the youngest
  key without a voice.
- `src/voice/voices.rs`: the voices (`VoiceList`): starting the voices of a key,
  stealing the oldest (released first) voice when all are in use, handing voices
  over to a waiting key or letting them go when a key is released, dropping
  finished voices.
- `src/dsp/oscillators.rs`: the 25-bit fixed-point phase accumulator of the
  table oscillators.
- `src/svf_simper.rs`: the filter response selector.
- `app/`: the plugin itself: parameters, editor, oscillators, envelopes and
  filter, all in floating point, driving the library's bookkeeping.
