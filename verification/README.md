# vpr_extra

Bitstream generation and timing analysis for a small island-style FPGA whose
designs are placed and routed by VPR, with every step of the logic proved
against its contract by Verus.

## Layout

- `src/` – the verified library
  - `text.rs` – byte classes, runs, literal search, decimal numbers, lines,
    cutting names out of a text
  - `parse.rs` – the `.route` and `.place` readers
  - `blif.rs` – the `.blif` reader, don't-care expansion of truth tables
  - `types.rs`, `config.rs`, `tile.rs` – the design data, the architecture
    settings and the programmable tiles
  - `bitstream.rs` – mapping of routed nets and look-up tables onto tile bits
  - `timing.rs` – delay event graphs and critical path delays
  - `model.rs` – widening look-up tables to the logic element size
  - `parameter.rs` – design parameters and the delay parameter file
  - `output.rs` – the bitstream and `.blif` texts
  - `logging.rs` – log levels of a run
- `tests/` – tests of the library on concrete inputs
- `app/` – the command-line tools `vpr2bitstream` and `abc2dualrail`
  (argument handling and file input and output)

Every reader returns `Parsed::Done`, `Parsed::Failed` with an error, or
`Parsed::Aborted` for the inputs that the tools do not handle; the `parse_*`
functions take the inputs that the tools handle and return a `Result`.

## Not included

The port map (the `map` option of `vpr2bitstream`, which writes a `.pmf`
file through `output_port_map`) is not provided: it rests on
`TileGrid::try_get_port_index` and `Model::trim_port`, which the project
never defined, so what the port map should hold is nowhere stated.
