# flightsim

The logic of a flight simulator, verified with Verus: flight dynamics, the
pilot's input, and what is drawn of the sky, the ground and the airport.

## Numbers

A replay must give the same flight to the last bit, so the library does not
leave arithmetic to the machine. `binary64` and `binary32` hold numbers by their
bit patterns and compute with them exactly as IEEE 754 says: every sum, product,
quotient, root, remainder and rounding is proved to be the nearest number to the
exact result. `rounding`, `number` and `root` hold the model, in whole numbers;
`exact`, `near`, `fine`, `track`, `sign`, `norm`, `inverse` and `fold` what
follows from it for longer computations.

Sines, powers and the shape of the earth are not computed here. A function that
needs one says what it wants (`angle_request`, `pressure_law`, `decay_exponent`)
and takes the answer as an argument.

## Layout

- `src/fdm`: a rigid body in six degrees of freedom, with atmosphere, gravity,
  aerodynamics past the stall, gusts, landing gear and a fourth-order step.
- `src/input`: keys, pads, axes that move with time, views.
- `src/render`: the calendar and the sun, daylight, clouds, terrain tiles,
  runways, taxiways, lights, signs, the aircraft and its cockpit, as plans that
  an engine turns into vertices.
- `app`: the engine side, with Bevy. It computes what needs the machine's
  floating point and draws the plans.
- `tests`: the library from outside, against the machine's own arithmetic and
  published figures.

## What is proved

Besides the contract of each function there are laws, public proof functions
whose names say what they state. Among them:

- A step is its parts flown one after the other, and each part leaves the
  attitude at length one, but for rounding, as long as what it turned to has a
  length that can be computed; a slow turn always has.
- There is air of finite, positive density at every height, and it thins where
  the factor of its pressure falls. Gravity grows towards the poles and is weaker
  higher up, to a thousand kilometres.
- Gusts stay within the strength asked for, drag and thrust are never negative,
  and what the air does to the left it does to the right.
- The ground never pulls, a deeper wheel is never pushed less, and the force on
  the body stays within the friction cone, to one part in two to the sixteen of
  its square. Where tyres hold less than they are pressed with, the force points
  away from the ground. The inertia times its inverse is one, but for rounding.
- A civil time, to the millisecond, made a Julian day comes back, in the years
  in which a double tells milliseconds apart.
- The clouds repeat after one in both directions, and a greater cover takes none
  away but for rounding, which is at most 74 parts in two to the twenty-four.
- Runways, taxiways, their lights, ground lights, markings and aprons face up,
  and signs look along their bearing; every mesh is well formed. Lights never dim
  while the sun sinks, but for rounding.
- Touching one axis of a pad does not take the others from the keyboard.
