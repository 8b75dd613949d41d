# seq-agent

A minimal packet-capture forwarder, with its protocol and decisions verified in
[Verus](https://github.com/verus-lang/verus).

The agent opens a capture device (or replays a `.pcap` file), applies a BPF
filter, and streams timestamped raw frames over TCP to whoever dials in. It
decodes nothing. The sink is a consumer: it dials an agent, counts the frames and
can write them to a `.pcap` file.

- `src/` is the verified library: the SEQA wire format (`proto`), the bounded
  ring between capturing and sending (`ring`), the capturing and sending sides
  (`capture`, `sender` and its `pump`), how a session is set up (`session`), the
  consuming side (`sink`), the libpcap file format (`pcap_file`), retry delays
  (`backoff`) and the command lines (`cli`). What holds of whole runs is in
  `proto_laws`, `ring_laws`, `session_laws` and `stream_laws`.
- `app/` holds sockets, threads, files and the capture device. It is one program
  under two names: called as `seq-sink` it is the sink, else the agent.
- `tests/` runs the library.

```sh
seq-agent --input capture.pcap --listen 127.0.0.1:9099
seq-sink --connect 127.0.0.1:9099 --write-pcap out.pcap
```
