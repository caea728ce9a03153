# orion_utils

Utilities of a peer-to-peer chat network, written in Verus: each function of the
library carries a contract, and Verus proves the code against it.

## Layout

- `src/` is the verified library.
  - `codec` — the binary wire format: every value reads back what was written.
  - `chat` — chat histories as bounded runs of framed messages, mailboxes, and what a
    fetch gives back of a push.
  - `storage` — the profiles and chats a node keeps, and the requests on them.
  - `stream` — small containers and buffers of the stream handling: the linear map, the
    packet writer and reader, and the wakers they keep.
  - `dispatch`, `protocol` — framing of requests, responses and events between handlers,
    and the messages between users and nodes.
  - `crypto`, `onion` — key pairs, double signatures, encapsulation, and the layers of
    encryption of the packets that set a path up, over the ciphers, signatures and KEMs
    of their crates (called through trusted items whose contracts say what the library
    relies on).
  - `galois` — arithmetic in GF(2^8) for the error-correcting code, with its field laws.
  - `modp`, `poly` — the integer side of Falcon key generation: Montgomery arithmetic
    modulo small primes, big integers in 31-bit limbs (CRT rebuild, extended binary GCD,
    scaled additions), and small polynomial helpers.
  - `name`, `config`, `contracts` — short names held inline, a secret key read from hex,
    and what the chain records of users.
- `tests/` runs the library on concrete values.
- `app/` holds what stays outside the proofs: process-wide counters, reference-counted
  handles, reading settings from the environment, and error types that print themselves.
