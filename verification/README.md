# pi_digits

Digits of pi to any length, with machine-checked contracts.

The library computes decimal digits by the Chudnovsky series (binary splitting)
and by the Gauss-Legendre iteration, hexadecimal digits at any position by the
Bailey-Borwein-Plouffe formula, and brings its own arithmetic for all of it.
The functions under `src/` are verified with Verus; what they call from outside is
trusted (see the end).

## Layout

| part | modules |
| --- | --- |
| natural numbers as limbs | `limbs`, `magnitude`, `multiply`, `divide`, `parallel` |
| number-theoretic transform | `field`, `group`, `fourier`, `twiddles`, `ntt`, `ntt_pack`, `ntt_mul`, `four_step`, `scratch` |
| integers | `integer`, `operators`, `numerals`, `newton_div`, `text`, `bitlen` |
| binary floating point of any precision | `float`, `rounding`, `newton`, `sqrt`, `float_ops`, `float_arith`, `float_from`, `reals` |
| double precision, done on integers | `double` |
| the algorithms | `precision`, `chudnovsky`, `chudnovsky_assembly`, `agm`, `gauss_legendre`, `digits`, `algorithm`, `bbp` |
| how good the digits are | `accuracy`, `terms`, `agm_error` |
| where digits and progress go | `output`, `progress`, `perf` |
| settings and hosts | `bignum_config`, `pi_config`, `file_config`, `config_gen`, `config_lines`, `hardware`, `storage`, `scan`, `display` |
| comparing and checking files | `verify`, `hex_convert`, `verify_hex`, `intervals` |

`app/` is the command line around the library, and `tests/` runs the library on
concrete values.

## What is proved

- The arithmetic is exact where it is exact: integers, magnitudes, transforms and
  numerals have contracts over the mathematical integers.
- Rounded operations state the rounded value (to nearest, halves to even), or a
  bound on their error.
- The Chudnovsky digits are those of the whole series, however many terms are
  added beyond the planned ones, up to an error of `2^-189` in the last digit
  (`terms::law_digits_of_series`).
- The Gauss-Legendre digits are those of the iteration without rounding, however
  many steps follow the planned ones, up to an error of `2^-150` in the last digit
  (`agm_error::law_digits_of_mean`).

- More digits keep the first ones, where the digits behind them are neither all
  zeros nor all nines (`terms::law_more_digits`, `agm_error::law_more_digits_of_mean`).
- Neighbouring windows of hexadecimal digits overlap, where the fraction is not
  about to carry (`bbp::law_windows_overlap`).
- The text of a generated configuration file sets exactly the values that were
  picked (`config_lines::law_text_sets`), and whoever reads its lines puts those
  values in force (`config_lines::law_generated_loads`).

That the series and the iteration have pi for their limit is not proved here.

Four functions from outside are trusted: `rayon::join`, `Rng::gen_range` of `rand`,
and `String::push` and `Arc::clone` of the standard library.  Two functions of the
library, `verify_hex::random_up_to` and `twiddles::share`, hold nothing but such a
call, and have contracts that are not proved.
