# bitpack

Bitpacking of integer columns, verified with Verus.

A column of integers seldom needs all the bits of its type. The library finds the
least number of bits that represents every value of a column, packs the values to
that width, works out which bytes of a packed buffer hold the rows that are asked
for, and decodes those bytes again. Negative values keep their sign: where a column
has any, the highest packed bit is a sign bit, and decoding extends it.

## Layout

| module      | what it holds                                                        |
|-------------|----------------------------------------------------------------------|
| `array`     | integer columns: values, validity, and the bytes of the values       |
| `bits`      | byte strings as strings of bits, and copying runs of bits            |
| `params`    | `bitpack_params`: how many bits a column needs                       |
| `encoder`   | `BitpackingBufferEncoder`: columns to a packed buffer                |
| `scheduler` | `BitpackedScheduler`: ranges of rows to ranges of bytes              |
| `decoder`   | `BitpackedPageDecoder`: packed bytes to values                       |
| `block`     | encoded buffers, decoded blocks, errors                              |
| `laws`      | what holds of packing, scheduling and decoding together              |
| `outside`   | what is taken from `arrow` and `bytes`, and what is believed of it   |

`app/` puts the library behind Arrow arrays and an asynchronous source of bytes.
`tests/` runs it on concrete values.

## What is stated

Contracts speak of bits. `bit(bytes, p)` is bit `p` of a byte string, the least
significant bit of each byte first; `int_bit(v, k)` is bit `k` of an integer in two's
complement. A packed buffer holds the low bits of each value one after the other,
and clear bits up to the next whole byte; a decoded value has the packed bits, and
above them the sign or zeros.

The functions that need something of their arguments have a companion that tests
it: `can_encode`, `can_schedule`, `can_decode`.

A request that skips rows up to the middle of one buffer and then runs on into the
next skips as many rows again there. `laws` states what a request reads that does
not do so: `law_stored_rows_are_read_back` and `law_chosen_parameters_lose_nothing`.
