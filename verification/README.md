# auto_water

Controller for an automated plant-watering device: an ESP32 drives a pump or solenoid valve
through a relay, waters on a schedule when a float switch reports water, and serves a small
HTTP interface (a status page with relay ON/OFF control, configuration, manual
watering, firmware upload).

- `src/` is the verified library: query and decimal text handling, request dispatch and reply
  rendering, the `/config` page, partition-table lookup, the firmware-upload chunk plan, and
  the decisions of the watering and Wi-Fi tasks. Every function carries a contract proved by
  Verus; HTTP head parsing is delegated to `httparse` behind one trusted wrapper.
- `app/` is the firmware around it: peripherals, Wi-Fi, sockets, flash and NVS access.
- `tests/` exercises the library.
