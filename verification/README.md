# grib2pmtiles

Converts gridded weather fields in GRIB2 format into PMTiles archives of vector tiles. The library
is written in Verus: what each function returns is stated in its contract and proved.

## Layout

- `src/` is the library.
  - `number`, `text`, `time`, `vectors`, `geo`, `hilbert`: numbers as bit patterns, texts, moments,
    vectors, boxes, and positions along the Hilbert curve.
  - `model`, `products`: the data that everything works on.
  - `grib`: what each section of a message means for the products.
  - `prepare`: cutting the cells of a product into tiles at the base zoom.
  - `options`, `quantize`, `omit`, `error`: what can be asked for, and what can be wrong with it.
  - `select`, `archive`, `metadata`, `header`: choosing layers and planning an archive.
  - `pyramid`, `tile`, `output`: which tiles there are, what is in them, and which are written.
- `app/` is the program round the library: files, threads, decoding, and floating point geometry.
- `tests/` runs the library.

Functions named `law_...` state what holds of the library as a whole.

## Use

```
grib2pmtiles input.grib2.bin.gz output.pmtiles \
  --product hrnowc/intensity \
  --layer-name-pattern 'rain250m_{seq}' \
  --layer-count 12 \
  --quantize "0,1,2,4,8,12,16,24,32,40,48,56,64,80"
```

`--layer-count` is an upper limit: of the products in the order of their times, the first ones
become layers.

The products that an input may hold are listed in a table, `products.json` or what `--catalogue`
names: for each kind of product its names, its base zoom, its grid, how its values are aggregated,
and the parameters of the messages that carry its bands.

Floating point numbers do not enter the library. Where a decision needs one, the program hands over
its bit pattern, or the integers that it was rounded to.
