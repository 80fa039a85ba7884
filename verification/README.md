# sdodps

Reads, exports and restores SDO variables of the boards on a CAN bus, from
the command line or a terminal front end, with the layout the DBC file
describes.

`src/` is the library, verified with Verus:

- `bits`: little-endian bit fields in byte buffers (`extract_bits`,
  `insert_bits`) and the laws that relate them.
- `codec`, `can`: SDO opcodes and frames, and frames as SocketCAN carries them.
- `dbc`: value kinds and storages, encoding and decoding of raw fields.
- `annotations`, `messages`, `boards`: reading the DBC text (value
  descriptions, senders, messages and signals) and building the database of
  SDO boards.
- `sdo`: lookups, requests, responses and listings.
- `exports`: export files and what a restore writes or reports.
- `app`: the state of the terminal front end (panes, cursors, sorting,
  filters, input, the value cache and the operation log).
- `config`: which setting wins among command line, file and defaults.

`app/` holds what Verus does not see: `main`, the command line, files,
the SocketCAN socket, the terminal, the `dbcc` runner, and the
floating-point work (DBC scaling, reading and printing floats).

The message table comes from the reference DBC named by `SDODPS_DBC_PATH`
(`dbc/can2.dbc` when unset); a DBC given at run time that differs from it
is refused.
