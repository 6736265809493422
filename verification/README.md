# ledboard

The verified core of a client for a 160 x 40 LED board that shows the time,
the weather and the next tram departures, and of a simulated board.

- `src/framebuffer.rs`: the frame buffer (eight LEDs per byte, first LED in
  the least significant bit); drawing pixels, with the laws that a pixel
  lights exactly its LED and that the last pixel drawn on an LED wins.
- `src/packet.rs`: the UDP packet (brightness byte and frame), the probe
  packet, and how the receiving board takes the image out of a packet, with
  the law that the board shows what was drawn.
- `src/text.rs`: character-level helpers (search, replace, decimal numbers,
  UTF-8 length) with their specifications.
- `src/labels.rs`: the station and departure texts, the clock text in Berlin
  time, and the weather symbol for a weather code.
- `src/straba.rs`: the answer of the departure board service and the choice
  of the next departure in each direction, with the law that it is the
  earliest one.
- `app/`: the programs around the library: UDP and HTTP exchange, polling of
  the weather service, drawing text and images with embedded-graphics, and
  the simulated board (`simulate` as first argument).
