# kcp_rs

A KCP implementation (reliable, ordered delivery over an unreliable datagram link) with a
Reed-Solomon forward error correction layer, written in Verus: every function carries a
contract, and the contracts are proved.

Layout of `src/`:

- `time.rs`, `sequence.rs`: wrapping clock and sequence-number arithmetic, half-range order.
- `segment.rs`, `codec.rs`: the 24-byte segment header and the wire format of segments.
- `ring_buffer.rs`: the generic FIFO, the send and receive buffers, the ACK list.
- `kcp.rs`: the control block (`send`, `recv`, `input`, `update`, `flush`, ...). The state
  changes of `input` are described by the spec function `rx_packet`; reassembly of a
  fragmented message is `lemma_fragments_reassemble`.
- `fec/`: GF(2^8) arithmetic and its field laws (`gf256.rs`), sums of products
  (`linalg.rs`), the encoder, the Gauss-Jordan decoder with its recovery guarantee
  (`decoder.rs`), and the send/receive group buffers (`buffer.rs`).

The outputs of a connection go through the user's `KcpOutput` implementation, which the
library calls but does not specify. What it is handed is specified: `Kcp::packets()` is the
sequence of packets given to the output so far, and the contract of `flush` (through
`flush_effect` and `flush_packets`) says which packets a flush adds: the queued
acknowledgments, the window probes, then the data segments that are due.
`lemma_single_segment_packet` states how a receiver's `input` processes each such packet.
`Kcp::outcomes()` records what the output returned for each packet: a flush completes when
every answer is a success and no segment reaches the dead-link limit of transmissions; it
fails only after handing out a packet, with the output's error, or with `DeadLink` (and the
link marked dead) after a successful output.

`Kcp::lemma_input_then_recv` states in-order delivery of a one-segment message through
`input` and `recv`; `fifo_run` and `lemma_fifo_run` state first-in-first-out behaviour of
the queues over any run of pushes and pops.

On the FEC side, `FecRecvBuffer::try_decode` rebuilds lost data shards through the decoder;
`lemma_one_loss_recoverable` shows that a single lost data shard is always recoverable from
any one parity shard. Not every set of k shards is: the kept rows must be invertible, which
fails for some patterns of the larger presets.
