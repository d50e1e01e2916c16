# most

A client for a high-frequency number-finding contest: a server streams decimal
digits, and the client posts every number it finds in the stream that is a
multiple of one of four fixed moduli, as fast as it can.

The library in `src/` is written in Verus and proved against its contracts:

- `rem`, `reduce`: the moduli and the short remainder routines (chains of
  conditional subtractions) used on values just above a multiple.
- `u128x8`, `u192`, `u192x8`: multi-limb integers and eight-lane vectors of
  them, with the lane-wise arithmetic the scanners need.
- `scan`, `task`, `client`: the scanning client. A scanner keeps, for each of
  the last 256 start positions, the residue of the number written from there
  to the latest digit; a task feeds bytes to one scanner and reports the first
  number found; the client runs the four tasks in turn.
- `residue`, `window`, `detect`: the detectors of the second design. A
  detector keeps one weighted prefix residue per position, so a suffix is a
  multiple exactly when the residue repeats; a direct-mapped index over the
  last 256 residues finds the repeat.
- `session`, `post`: the decisions of a connection that feeds received
  buffers to the four detectors, and the HTTP requests that post a number.

`app/` holds the program around the scanning client: the TCP connections,
timing statistics and logging. `tests/` exercises the library on concrete
streams.
