# Tango bridge

A bridge on a user's own machine. A browser talks to it, and it talks to phones: it carries ADB
traffic, video and touch commands, answers WebRTC offers, hands requests that it does not know to
the web site, and keeps a workspace of files.

- `src/` is the library: what the bridge decides, verified with Verus. It does no I/O. What waits for
  the network or the disk is written as steps: an event goes in, what to do comes out.
- `app/` is the program around it: the web server, the sockets, the disk and the icon in the tray.
- `tests/` runs the library on given values.

| Module | Holds |
| --- | --- |
| `text`, `path`, `ip` | texts, paths and IP addresses |
| `path_laws` | what holds of paths |
| `zxh` | the format of the video stream |
| `relay`, `touch` | the tasks that carry bytes between a browser and a device |
| `handlers`, `profile`, `rtc`, `ice` | requests for devices, and watching them over WebRTC |
| `proxy` | requests that go on to the web site |
| `workspace` | listing, reading, writing and deleting files |
| `workspace_laws` | what holds of the workspace as a whole |
| `desktop` | the icon in the tray and its menu |

Paths are texts in the style of a system, Unix or Windows, of which the program tells the library.
