# kornia-warp

Perspective warping of images, verified with Verus.

`src/` is the library. It is generic over the arithmetic of the samples: formulas are
stated over `scalar::Arith`, run through `scalar::Scalar`, and read in the exact arithmetic
of the real numbers for the laws.

| module          | holds                                                                |
| :-------------- | :------------------------------------------------------------------- |
| `scalar`        | the arithmetic, and its exact reading                                 |
| `fixed`         | a verified fixed-point arithmetic                                     |
| `algebra`       | lemmas on products and quotients of real numbers                      |
| `matrix`        | determinant, adjugate, inverse, transformation of points              |
| `matrix_laws`   | the algebra of matrices and of the maps that they stand for           |
| `integers`      | arithmetic that is exact on integers, and matrices of integers in it  |
| `image`         | images as plain samples, errors                                       |
| `interpolation` | samples between pixels                                                |
| `bytes`         | scalars as the bytes of a device buffer, by way of `bytemuck`         |
| `gpu`           | device context, launch, and one thread of the kernel                  |
| `warp`          | the warp on either backend                                            |
| `restore`       | warping forth and back                                                |
| `laws`          | what holds of the warp as a whole                                     |

`app/` ties the library to `kornia_image` images in single precision and runs the device
jobs with `cubecl`. `tests/` runs the library in single precision and in fixed point.

What is not proved: that an arithmetic defined outside `src/`, such as single precision, keeps
the contracts of `Scalar`; that the text of the kernel in `app/`, which `cubecl` compiles, is
the thread that `gpu` verifies; and the contracts of the two `bytemuck` calls in `bytes`.
