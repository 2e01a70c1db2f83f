# babiniku

Live voice conversion: the parts of the voice changer that can be stated and proved, and the
program around them.

- `src/` is the library. Signal code is generic over `arith::Real`, so that contracts say exactly
  which sums and products a sample is, in which order, whatever numbers are put in. Clauses on
  values hold where each operation of the number type is a function of its operands, as it is for
  IEEE numbers; those on lengths, names and errors do not ask for that.
  - `bwe`, `declick`, `profile`, `fir`, `ratio`: the sound of a converted voice.
  - `spectra`, `mel`, `fourier`, `overlap`, `rng`, `ode`, `plan`: what the engines share.
  - `cosyvoice`, `seedvc`, `meanvc`: the engines: features, masks, tables, schedules, streaming
    and the names and sizes of the weights.
  - `audio`, `buildinfo`, `ckpt`: the program: rings, devices, directories.
  - `fetch`: the download tool: arguments, what to fetch, names of tensors, `.npy` and `.npz`.
- `tests/` runs the library on single- and double-precision floats and real transforms.
- `app/` is `babiniku-fetch`, the networks on tensors and the audio devices.
