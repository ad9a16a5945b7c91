# FlightLive

A live picture of the airspace around the Garyville refinery in Louisiana, for drone
operators about to launch. Aircraft reports of adsb.lol and the OpenSky Network are fused
and followed over time. Each aircraft gets a behavior and a trail, pairs that come too
close are reported, and so are aircraft that will be heard on the ground. The weather of
the nearest station goes with every snapshot.

## Layout

- `src/` is the library: the logic, stated in contracts that Verus proves.
  - `measure`, `formula`: measurements by their IEEE 754 bit pattern, ordered and rounded
    by integer arithmetic, and the floating-point formulas that a caller evaluates.
  - `text`, `order`, `json`, `clock`: characters, stable sorting, untyped JSON values,
    the wall clock.
  - `opensky`, `auth`, `adsb_lol`, `weather`: what the services send, decoded.
  - `fusion`, `history`, `analysis`, `conflicts`, `acoustics`, `tracker`: from two lists of
    reports to a snapshot.
  - `narrator`, `server`: a prompt on the airspace, and what the server answers.
- `tests/` runs the library on concrete values.
- `app/` is the program: requests, the server, and the floating-point arithmetic.

## What is not proved

The values of the formulas in `app/units.rs`, and the outside functions that the library
calls: `serde_json` values, `mime_guess`, lower case of the standard library, and the
clock. Each of these calls stands behind one function that says what is taken for granted.
