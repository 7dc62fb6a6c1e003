# lightyear

The message layer of a networked game library, verified with Verus.

An application buffers messages on channels. A `MessageManager` cuts long messages into
fragments, packs everything into packets that fit into one datagram, and returns the bytes to
send. On the other side, a `MessageManager` takes the bytes, puts the messages back together and
hands them out channel by channel. Every packet also tells the remote which of its most recent
packets arrived, so that reliable channels stop sending what was received.

The library does no input or output: the caller moves the bytes.

## Layout

- `message_manager`: the `MessageManager`, with `manager_model` as the model of its state.
- `channel`: the ends of a channel, how channels behave, and the registry of channels.
- `header`, `packet`, `packet_manager`: headers and acknowledgements, packets, and packing.
- `message`, `serialize`: messages and fragments on the wire, and byte buffers.
- `text`: numbers in the texts of errors.
- `ack_map`: which messages travel in which packets.
- `laws`: what holds across several operations. What is sent is received, acknowledgements come
  back to where they belong, messages are read once and, on reliable channels, in order.

The contracts speak of models: the state of a manager is a `ManagerModel`, and each operation is
a function from one such state to the next. `wf` is what holds of a manager at all times.
