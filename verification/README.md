# house_automation

A daemon that lights a house: circadian curves, scenes and overlays, remote
controls, and a reconciler that brings Zigbee lamps to what is wanted of them.

The library under `src/` holds every rule and is proved with Verus. `app/` is the
program around it: files, database, network, clocks and signals. `tests/` runs the
library.

## The library

| Modules | What they hold |
| --- | --- |
| `double`, `bounds`, `decimal`, `natural` | binary64 arithmetic bit by bit, how far rounding carries, exact decimals, large naturals |
| `text`, `ordered`, `message`, `json` | identifiers, sorted maps, errors in words, JSON |
| `value`, `curve`, `cubic`, `solar`, `color` | light values, curves over the day and why they have a value at every time, the sun, colours |
| `state`, `overlay`, `input` | what each scope shows, what lies over it, what buttons mean |
| `reconcile`, `dispatch`, `reconciler`, `reach`, `lifetime` | devices and groups, the reconciler as a machine, its code, where commands go, what holds over whole runs |
| `zigbee2mqtt`, `mqtt`, `delivery`, `redaction` | messages and plans, broker settings, acknowledgements, what a log may show |
| `config`, `topology`, `setup`, `command` | the configuration and what is wrong with it, arguments |
| `persistence`, `startup`, `runtime`, `actor`, `scheduler`, `pause`, `service`, `health` | the engine from start to stop |

Contracts speak of `spec` functions that say what a value is. Laws that relate
several operations are public proof functions, each with the law in its comment.

What is believed without proof stands behind `#[verifier::external_body]`: reading
and writing JSON (`json`), decoding UTF-8 (`zigbee2mqtt`), quoting text
(`redaction`), and the time-zone database (`solar`, `scheduler`).
