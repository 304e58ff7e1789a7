# reliable

A simple packet acknowledgement system for UDP-based protocols, verified with Verus.

It is useful where you need to know which of the packets you sent were received by the other
side. Packets that are too large for one datagram are split into fragments and put together
again, duplicate and stale packets are dropped (a sequence number stands for a new packet once
the numbers have gone half way around their circle of 65536), and samples are kept from which round trip
time, packet loss and bandwidth can be estimated.

## Usage

```rust
let mut endpoint = Endpoint::new(Config::default(), time);

// the datagrams to transmit over your own socket
let sequence = endpoint.next_packet_sequence();
for datagram in endpoint.send_packet(packet_data) { /* ... */ }

// for each datagram that comes in; return false if the packet should not be acked
endpoint.receive_packet(datagram, |sequence, data| true);

// once per-frame
endpoint.update(time);
for &acked in endpoint.acks() { /* ... */ }
endpoint.clear_acks();
```

Acks accumulate until `clear_acks` or `drain_acks` is called. When the ack buffer is full,
further acks wait until there is room and the other side sends them again.

## Layout

- `src/sequence.rs`: sequence numbers and their circular order
- `src/sequence_buffer.rs`: the circular buffer of entries by sequence number
- `src/packet.rs`: packet and fragment headers on the wire
- `src/reassembly.rs`: putting a packet together from its fragments
- `src/config.rs`: configuration and counters
- `src/model.rs`: what an endpoint is and does, as mathematics
- `src/endpoint.rs`: the endpoint
- `src/laws/`: what holds of the system as a whole, and of its life from the start
- `app/`: an endpoint with floating point statistics, closures and log output
- `tests/`: tests
