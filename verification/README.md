# h7_bootloader

The verified core of a dual-core STM32H755 bootloader and of the host tool
that flashes the Cortex-M4 image through it.

- `src/` — the library, checked by Verus:
  - `cobs` — the COBS model: encoding, decoding, and their laws;
  - `bootloader` — framing into fixed buffers, frame reception, and the
    step-by-step serving of host commands;
  - `host` — framing of commands, reply collection, reply text, and the
    flashing session (ping, erase, chunked writes, CRC check, boot);
  - `crc` — CRC-32/MPEG2 and the region check of the CRC unit;
  - `flash`, `hsem`, `gpio`, `uart` — register-level decisions of the
    drivers;
  - `boot`, `mem` — the shared-memory contract between the two cores;
  - `protocol` — the messages exchanged with the host.
- `app/` — the host command-line tool (serial port, postcard encoding)
  and the hardware side of both cores (register access, busy waits), each
  decision delegated to the library.
- `tests/` — tests of the library on concrete values.
