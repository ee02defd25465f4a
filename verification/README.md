# bubble_lib

Finds gas bubbles in hydrophone recordings: the signal is cut into
overlapping segments, each segment goes through a continuous wavelet
transform, weak responses are thresholded away, the local maxima of the
scaleogram are taken as bubble candidates, and mean-shift clustering merges
candidates that belong to one bubble.

- `src/` is the verified library (Verus). It holds the segmenter, the
  take-then-peek reader over a circular buffer, the thresholding and peak
  search on a scaleogram, the grouping step of mean-shift clustering and the
  clustering-window settings, with their contracts and laws. Sample values
  and magnitudes travel through it as the bit patterns of their
  single-precision values, compared as IEEE-754 compares those values.
- `app/` is the command-line tool around it: reading WAV files, the
  floating-point wavelet transforms and clustering shifts, threads, progress
  display, CSV and SVG output.
- `tests/` exercises the library.
