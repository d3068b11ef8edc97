# bg_remover

The verified core of a desktop background remover. A segmentation model
produces a soft mask; the pipeline around it decides what image the model
sees, cleans the mask and cuts the subject out.

- `src/` is the library, checked by Verus:
  - `islands.rs`: removal of small 4-connected islands from a thresholded
    mask, with the proofs that no small island survives and that cleaning
    twice changes nothing;
  - `pipeline.rs`: the decode size limit, the image handed to the model,
    the RGBA composition, the model-loading decision, the preview name;
  - `inference.rs`: thread count, model input, output shape check;
  - `smoothing.rs`: the cells the edge-aware smoothing reads;
  - `imaging.rs`: the calls into the `image` crate;
  - `text.rs`: decimal and hexadecimal renderings; `error.rs`: errors.
- `app/` is the desktop program: file I/O, the ONNX Runtime session, the
  floating-point steps of the mask (resampling, normalization, smoothing),
  and the Tauri commands.
- `tests/` runs the library on concrete inputs.
