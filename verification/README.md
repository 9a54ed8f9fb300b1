# elide

Cuts the dead air out of a video: silences where nothing happens on screen are
collapsed or sped up, false starts and fillers are cut, and everything else
plays as recorded. What is cut is decided by measurements, never by a language
model.

- `src/` is the library: every decision, with its contract, proved with Verus.
  Times are whole microseconds, levels and ratios whole millionths, so every
  comparison is exact. The ends of the range stand for infinity, as in the
  loudness of silence, and the lowest value for what is no number.
- `app/` runs ffmpeg and the speech models, reads and writes files, and does
  the acoustic measurements that need floating point.
- `tests/` runs the library on concrete values.

The laws, as `law_...` proof functions beside what they speak of, say what holds
of every input:

- `edit.rs`: no pacing and no pause floor touches speech, so before disfluencies
  are cut all of it plays as recorded. The captions say what the transcript says,
  word for word; a fragment that wraps past two lines shows only its first two.
- `cues.rs`: no two captions overlap, and none ends before it starts but a last one
  that starts past the end of the programme.
- `captions.rs`: splitting and joining keep every word, and what was joined cannot
  be joined further.
- `dead_air.rs`: a bridge never covers speech, and the edge guard never lets a run
  grow or vanish.
- `disfluency.rs`: every accepted cut is safe, and cutting removes the cuts and
  nothing else.
- `plan.rs`: the time map can be followed both ways.
- `align.rs`: every moment is in the own region of one chunk and of no other.
- `ai/monitor.rs`, `ai/tasks.rs`: the model can neither reach a guard nor lower a
  score, and only what it was asked about can be flagged.
