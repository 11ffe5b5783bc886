# phased_array

Far-field and radiated-power kernels of a phased-array visualiser, split in
two:

- `src/` — the verified library (Verus). It holds the integer logic the
  kernels run on: grid shapes and tile rows, the deterministic cache hasher,
  the quadrature sample layout and its panels, buffer bookkeeping of the
  radiated-power state, product-lattice detection with its lag slots, and
  the decisions of the pattern metrics (peak, main-beam flood fill with the
  spherical φ wrap, local maxima, sidelobe picks, half-power cut walks and
  the peak neighbourhood). Intensities reach it as `f32` bit patterns whose
  order is specified in `order.rs`.
- `app/` — the WebAssembly front end (`wasm_bindgen`) and all the
  floating-point work: Bessel functions, Green functions, SIMD phase
  accumulation (`wide`), dense solvers (`faer`), matched S/T, and the
  interpolation and geometry of the pattern metrics. It calls the library
  for every decision listed above.
- `tests/` — tests of the library on concrete inputs.
