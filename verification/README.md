# mandelbrot

A Mandelbrot renderer whose integer logic is verified with Verus.

- `src/size.rs`: image sizes, pixel counts and row-major pixel addressing.
- `src/image.rs`: the greyscale image and the grey levels of the standalone renderer.
- `src/cpu.rs`: grey levels of the CPU renderers, the row traversal of the
  sequential renderer and the batch/tail split of the SIMD renderer.
- `src/gpu.rs`: the arithmetic of the GPU renderer: dimension checks, buffer
  limits, tiling of the image into bands of rows, workgroup counts and the
  read-back of the shader's output words.
- `app/`: the program: floating-point iteration, threads, PNG output.
