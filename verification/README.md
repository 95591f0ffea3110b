# synesthesia

Audio-visual instruments (Chladni figures, a theremin with camera tracking,
gravity wells, a fluid drum) built around a verified core.

- `src/` is the library, verified with Verus:
  - `camera`: the colour test of a pixel against a tracking target, the
    mirrored RGBA copy of a camera frame, its colour mask, the four-connected
    components of the mask (flood fill) and the choice of up to two blobs,
    left to right;
  - `theremin`: note names of MIDI notes;
  - `cymatics`: colour schemes, the Chladni mode of a frequency band, the
    speed tiers of the simulation slider;
  - `fluiddrum`: drum, wave and colour options, and the geometry of the
    membrane grid (interior cells, strike discs, image sampling, vortex
    neighbours, initial strikes, touch endings);
  - `gravity`: how particles are dealt out among planets;
  - `bounded`: capped lists (drum hits, planets, particle trails);
  - `scenes`: switching between instruments.
- `app/` is the program: windows, painting, audio streams, the camera
  thread, and the floating-point physics and colour math.
- `tests/` exercises the library.
