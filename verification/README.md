# custom_float

Floating point numbers whose layout is chosen by type parameters: whether there is a sign
bit, the exponent size, the size of the integer part (zero makes the integer bit implicit),
the fraction size and the exponent base. `Fp<u64, true, 11, 0, 52, 2>` is the IEEE 754 double.

The library is written in Verus. Every operation states its result in its contract, over
the bit pattern of the numbers:

- `format.rs`, `bits.rs`: the layout (`Format`), the fields of a bit pattern and its category.
- `binary.rs`, `rounding.rs`: `pack`, the value `(-1)^s * m * 2^t` rounded to nearest with ties
  to even, and the facts that rounding depends only on the value and that a sticky digit below
  the rounding position stands in for all the digits it replaces.
- `addition.rs`, `product.rs`, `quotient.rs`, `remainder.rs`: the arithmetic, each result
  rounded once (the remainder is exact).
- `convert.rs`, `int_conv.rs`, `round_int.rs`, `parse.rs`, `bytes.rs`: conversions between
  layouts, to and from integers, to integers, from text and from bytes.
- `order.rs`, `next.rs`: comparison, the total order and stepping to neighbouring numbers.
- `nearest.rs`: no finite number lies nearer to a value than its rounding.
- `neighbour.rs`: with an implicit integer bit the numbers stand in a row, so stepping up
  gives the least greater number and stepping down the greatest smaller one.
- `root.rs`: signs of products, quotients and sums, and that the square root of a finite
  number without a sign is finite and without a sign.
- `laws.rs`: laws that relate the operations.
- `fp/`: the type `Fp` and its methods, each a thin layer over the functions above;
  `fp/expb.rs` builds `2^x` from the exponent field and a fractional power handed in.

The arithmetic is defined for layouts with exponent base 2, at most 64 exponent bits and at
most 120 significant bits; the bit-level operations (classification, signs, comparison,
neighbours, constants) take any layout, and so do conversions that need no rounding (into
the same layout, one with a wider fraction, and of NaN, infinities and zeros) and the
multiplication and division by the exponent base on normal numbers.

`app/` converts between the library's numbers and the machine's `f32` and `f64`, computes
the fractional power for `expb`, and evaluates the transcendental functions in `f64`.
