# rpi_monitor

The verified core of a Raspberry Pi system monitor. `src/` holds the logic
of the monitor, each function with a contract that Verus proves:

- `text`: white space, trimming, lines and words as the standard library
  splits them, prefixes, integer parsing and decimal rendering;
- `order`: the byte order of strings and sorting by it;
- `letter_case`: Unicode case mapping, done by the standard library;
- `net`: which `/sys/class/net` entries are Ethernet or Wi-Fi interfaces,
  and what `operstate`, `flags`, `speed`, `ip`, `iw` and `wpa_cli` report;
- `system`: host name, operating system, uptime, GPU clock, fan speed, disk
  and network byte counters;
- `power`: the PMIC rails and the readings of `vcgencmd pmic_read_adc`;
- `history`: the bounded history of samples.

`app/` is the web server: it reads the files, runs the tools, keeps the
sampling loop and serves the dashboard over HTTP and WebSocket.
