# maschine-mk3

A user-space driver for the Maschine MK3 controller: it turns the controller's reports into MIDI,
lights its LEDs, draws on its two screens, and tells a window and a browser page what happens.

`src/` is the verified library. It does no input or output; every function states what it returns
and is proved to return it.

| module | what it holds |
| --- | --- |
| `hid`, `leds`, `device`, `display` | reports, LED banks and palettes, feature reports, frames and the blits that show them |
| `config`, `profile`, `namemap` | the settings, the description of the hardware, maps by name |
| `single` | the response curves, in binary32 arithmetic |
| `engine`, `behaviour` | from reports to messages and lights, and the laws of it |
| `midi`, `ipc`, `daemon`, `gui`, `diagnose` | sequencer events and ports, the socket's messages, the driver's decisions, the page's requests, the self-test |
| `ui`, `panel` | what the screens and the window show |
| `preset`, `doc`, `tree`, `comments` | presets, and edits of TOML files that keep their comments |
| `learn` | the discovery tool: bits, slots, pads, colours |
| `text`, `edit` | strings, and how far apart two of them are |

Public proof functions named `law_..` state what holds of the library as a whole. The calls into
`toml`, `toml_edit` and the standard library that are taken on trust stand in `tree`, `preset`,
`midi` and `text`, each with the claim that is made of it.

`app/` is the program around it: files, devices, sockets, the sequencer and the window. One
executable serves as `mk3d`, `mk3-gui` and `mk3-learn`, by the name it is started under.

`tests/` runs the library on concrete values.
