# musapy_ops

The operator layer of a NumPy-style array library for MUSA GPUs, written in Verus.
Arrays are strided views (`layout::Layout`: shape, strides and offset in elements)
of a byte buffer; every operator decides, from shapes, strides, dtypes and devices,
whether it can run and what it produces.

## Layout

- `src/` — the verified library.
  - `layout`, `broadcast`, `dtype`, `array`, `error`: shapes and strides, NumPy
    broadcasting, element types, array descriptors and errors.
  - `indexing`: arrays in host memory (`HostArray`). Views (transpose, permute,
    flip, slice, index_select, reshapes) share the buffer; copies (contiguous,
    gather, scatter, advanced indexing, boolean masks) build new row-major
    buffers. Their contracts state, element by element, which source element each
    result element holds.
  - `creation`: zeros, ones, eye, `full` from an encoded value, and the `_like`
    variants.
  - `host_reduce`: reductions (sum, prod, max, min, argmax, argmin) and running
    sums of integer arrays in host memory, computed in int64; argmax/argmin over
    several axes at once give the flat index within those axes.
  - `op_builder`, `elementwise`, `comparison`, `reduction`: the plans of the
    elementwise, comparison and reduction kernels (output shape and dtype, casts,
    axes, error cases).
  - `linalg`, `fft`, `random`, `sparse`: argument checks and plans of the
    operations that run on the GPU math libraries, and the host-side assembly of
    their results (QR factors, pivots, CSR to dense).
  - `kernels`: index arithmetic of the reference CPU kernels.
- `app/` — the operations whose arguments are floating-point numbers (`full`,
  `arange`, `linspace`, `uniform`, `normal`, `bernoulli`, clamp bounds) and host
  versions of the float clamp and complex-widening kernels, built on the library.
- `tests/` — tests on concrete values, run against the compiled library.

The public proof functions state the laws of the library: broadcasting is
characterized dimension by dimension and does not depend on the order of the
shapes, transposing by a permutation and then by its inverse
restores a layout, flipping twice restores it, the order of reduction axes does
not matter, summing along one axis and then over the rest gives the total,
argmax/argmin pick the first extremum, and over one axis or over all axes the
several-axes argmax/argmin reduce the same values as the single-axis and flattened
ones, gathering at distinct indices returns what a
scatter wrote there, scattering back what a gather took out leaves the array as it
was (repeated indices included), and forward and inverse FFT scalings multiply to
`1/N`. Where a scatter writes several values to one element, one of them stays;
which one is not specified.
