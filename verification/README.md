# lightbox

Drives an LED strip from music: audio samples are cut into frames, each frame
is turned into a spectrum, and the spectrum is shown as colours.

- `src/` is the verified library (Verus):
  - `processing`: frame sizes, window choice, render buffers, chunking;
  - `visualizer`: colouring quantized spectrum levels into RGB bytes;
  - `led`: controller settings, framing of the sample stream, averaging cursor;
  - `player`: audio device selection, configuration listing, queue limit,
    command line;
  - `track`: base62 track ids, decoded through librespot;
  - `sample_file`: the big-endian word layout of sample files.
- `app/` is the program around it: audio, Spotify session, LED hardware,
  files, and the floating-point signal processing.
  `app/sample_files.rs` holds the offline processing run (sample file in,
  window and spectra out); the program's entry point does not call it.
- The Python plotting extension (an interactive viewer of frames, spectra and
  LED colours) is not part of this crate.
- `tests/` runs the library on concrete inputs.
