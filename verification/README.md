# Brute-force fraud scoring

Exact k-nearest-neighbour fraud scoring over 14-dimensional vectors, for a
reference set that stays on a compute device.  References are quantised to packed
16-bit steps; the device reduces every block of 256 to its five nearest; the
library merges the block results, looks up the bit-packed labels and decides.

`src/` is the library, verified with Verus:

- `rounding`, `binary32`: binary32 arithmetic on bit patterns, correctly rounded;
- `quantize`, `labels`, `references`: how vectors and labels are stored, and
  exhaustive search;
- `distance`, `topk`, `exactness`: the order of candidates by distance (whole
  squared steps for packed vectors), the five nearest, and why merging the block
  results loses nothing;
- `decision`, `text`: the decision and its JSON;
- `timestamp`, `payload`: score requests and the vectors they give;
- `http`: framing, routing and replies;
- `rng`, `generate`: deterministic references and queries;
- `plan`, `wire`: layout on the device, its limits, and the bytes copied to and
  from it;
- `validation`, `latency`, `settings`: checks of the device, order statistics of
  latencies, and decisions from the settings.

Public proof functions named `law_..` state what holds of the library as a whole.

`app/` is the program around it: command line, files, the compute kernel, the
device and the HTTP server.
