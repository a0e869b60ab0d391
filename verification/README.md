# pico-10base-t-rs

A 10BASE-T Ethernet interface in software, and a small NAPT router on top of it. The logic
is verified with Verus: every function states what it computes, and the contracts are
proved.

- `src/`: the library.
  - On the line: `manchester`, `crc`, `samples`, `eth_tx` (frames to transmit words,
    contention), `eth_rx` (stitching, runs, open-loop decoding), `eth_rx_dpll`
    (edge-tracking decoder), `eth_mac` (filter, inbox, counts).
  - That what is sent is what is received: `loopback` (one frame), `reception` (frames
    back to back), `seams` (samples cut into half-buffers).
  - Routing: `wire`, `checksum`, `conntrack`, `forward`.
  - Services: `dhcp_server`, `wan`, `http`, `status`, `text`, `console`.
  - The board: `schedule`, `monitor`, `cycles`, `gspi`, `multicore_riscv`, `pico_reset`,
    `time_driver`.
  - `frame` holds what is believed, not proved, of the `heapless` collections; the other
    such statements, on `smoltcp`, stand in `forward`, `dhcp_server` and `wan`. Each is
    marked `external_body` and says which function it is about.
- `tests/`: the library run on concrete values.
- `app/`: the firmware around the library: PIO, DMA, USB, the wireless chip, sockets and
  the executor's tasks.
