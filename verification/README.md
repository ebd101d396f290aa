# cdflib

Cumulative distribution functions, their inverses and the searches for their
parameters, on binary64 numbers, with contracts that Verus proves.

## Numbers

`F64` holds a binary64 number by its bits. Sums, products, quotients and square
roots are computed on integers and proved to be the nearest numbers, ties to
even. Exponentials, logarithms, sines, cosines and powers come from the caller,
as one function from an `Elementary` request to a number; every contract holds
for any such function that gives one answer per request.

## Layout

- `src/float`: the numbers, their arithmetic, the laws of rounding, and bounds that are
  carried through it.
- `src/special`: error function, normal, gamma and beta functions, incomplete
  ratios and their inverses.
- `src/search`: the searches that ask for one value at a time, and the loops
  that run them.
- `src/solver`: the bracketing solvers for monotone functions.
- `src/dist`: the distributions.
- `src/trace`: lines that record a search, and their reading. Decimal numbers in them are
  read by a function of the caller's.
- `tests`: scenarios and laws on concrete values.
- `app`: native floats and files around the library.

Functions named `law_...` state what holds across several functions.
