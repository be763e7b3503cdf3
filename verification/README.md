# led_handheld

LED controller for handheld devices, verified with [Verus](https://github.com/verus-lang/verus).

The library in `src/` holds the rules: which hardware a device has and how it is made ready,
which files a request writes, what the contents of files mean, which colour a battery level has,
how a colour is dimmed, what each frame of an effect looks like, what a command line asks for, and
which commands are held back while colour changes are blocked. It makes no system calls. A request
to change the LEDs is answered with the list of file writes that carry it out; a request to read
them takes the contents of the files.

The program in `app/` reads, writes, waits and prints. It also tells whether a block has expired,
since the times that it compares are floating point.

| module       | what it holds                                                         |
|--------------|-----------------------------------------------------------------------|
| `text`       | trimming, splitting, searching, unsigned numbers                      |
| `binary64`   | double precision numbers in integer arithmetic                        |
| `color`      | reading, writing and dimming colours                                  |
| `conf`       | the system's configuration file                                       |
| `backend`    | the three kinds of LED hardware: RGB, PWM, individual                 |
| `detect`     | which of them a device has                                            |
| `battery`    | thresholds of the battery level and the colours that show it          |
| `individual` | settings of single LEDs, one in each line                             |
| `json`       | settings of single LEDs in a JSON file                                |
| `apply`      | bringing settings to the hardware                                     |
| `effects`    | rainbow and pulse                                                     |
| `daemon`     | what the daemon does after a reading, and the marker that blocks it   |
| `command`    | the command line                                                      |

Functions whose names begin with `law_` state what holds across several functions: that a
colour that was written is read back, that settings of all LEDs come before those of a side and
those before single ones, that an effect ends with the colour it began with, and so on.

Colours are dimmed in IEEE 754 double precision. The library computes that exactly, in integers.
