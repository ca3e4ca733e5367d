# ram_map

The library behind a RAM map viewer: it reads memory maps written as text,
one region per line,

```
  [pa00_0008_0000 - pa00_0020_0000) |   2 MiB | (Drop) C   RW PXN | Init_Thread
  [pa00_0020_0000 - pa00_0020_7260) |  29 KiB | (Free) C   RW PXN | RAM
  [pa00_0040_0000 - pa00_0040_3800) |  14 KiB | (Used) C   RO PX  | Nucleus code
  [pa00_4000_0000 - pa00_4000_0100) | 256 B   | (Used) Dev RW PXN | local_intc
```

and lays the regions out along a Hilbert curve. The functions in `src/` are
verified with Verus against their contracts, except three small trusted
wrappers around std calls whose contracts are taken as given:
`to_lowercase` (`str::to_lowercase`, in `src/colors.rs`), `parse_hex_u64`
(`u64::from_str_radix`, in `src/input.rs`) and `push_char` (`String::push`,
in `src/text.rs`).

- `src/hilbert.rs`: the Hilbert curve, `d2xy` and `xy2d`, with the laws that
  they invert each other and that consecutive steps visit neighbouring cells.
- `src/input.rs`: the regions and the line format (`parse_regions`), with
  the laws that formatted addresses and attributes read back.
- `src/text.rs`: whitespace, trimming, splitting and string building over
  characters.
- `src/colors.rs`: region colors, status labels, address formatting.
- `src/layout.rs`: blocks with gap compression (`build_blocks`), with the
  law that the blocks cover the regions' span; rows.
- `src/viewer.rs`: filtering, sharing the grid's cells out between blocks,
  cell borders, labels and the viewer's state.
- `app/`: the egui application (drawing, file reading, and the floating-point
  parts: block weights, pixel widths, luminance, sizes with one decimal).
