# t2fand

A fan daemon for Macs with a T2 chip, with its logic verified by Verus.

`src/` is the verified library:

- `monitor`: the temperature history, its mean, and what follows from a reading;
- `fan_controller`: a fan's limits, the speed curves, and what is written to a fan;
- `binary32`: the single-precision arithmetic of the speed curves, on integers;
- `sensor`: the texts of the temperature sensors and the choice among them;
- `discovery`: how fans, sensors and their files are named;
- `pid_file`: how a second daemon notices the first;
- `session`: taking control of the fans and handing them back;
- `text`: numbers as text;
- `config`, `error`: the settings of a fan, and what can go wrong.

Public proof functions whose names start with `law_` state what holds of the library
as a whole.

`app/` is the daemon: files, signals and sleeping around the library. `tests/` holds
the tests of the library.
