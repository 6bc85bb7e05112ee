# msg_seedling

Audio management for games on bevy: category-based volume, playback requests
with randomization, fades, sound damping fields, sidechain ducking, fades of
the whole mix, and a significance-ranked virtual voice queue with admission
controls.

The library in `src/` decides, and is verified with Verus; the plugins in
`app/` read entities into plain values, call the library, and carry the changes
out on `bevy_seedling`.

| Module | What it decides |
|--------|-----------------|
| `baseline` | the per-sound share of volume and speed |
| `randomization`, `messages`, `handlers` | what a play, stop or fade request does |
| `volume`, `mix_fade` | the writes of a changed configuration, and who owns the main bus |
| `fade` | when a fade is handed to the audio thread, and when it is over |
| `damping`, `ducking` | what fields and the duck make of a sound |
| `virtual_queue` | admission, ranking, promotion, demotion, displacement |
| `device_follow`, `bevy_audio_guard` | when the stream restarts, and whether bevy's own audio runs |
| `sound` | one sound of the mix, as plain values |
| `single`, `time`, `geometry` | single-precision numbers, spans of time, vectors |

Numbers are single-precision patterns (`single::Single`) whose arithmetic is
verified against rounding to the nearest number. What only the machine or the
engine can compute, such as powers, decibels, random draws and the enumeration
of devices, is handed in by the host.

The contracts say what each function returns or changes. What holds of the
library as a whole stands in public proof functions: the queue never exceeds its
budget, one ranking pass settles the set, an entrance keeps every cap, a stop is
never lost, a displaced loop comes back, overlapping fields never stack, the
duck always comes to rest, silence survives every write.
