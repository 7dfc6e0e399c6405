# MQTT broker core

A small MQTT broker whose packet handling, session state and subscription
routing are verified with Verus.

- `src/mqtt_entities/mqtt_handler.rs`: framing of the connection buffer and
  parsing of CONNECT, PUBLISH, SUBSCRIBE and PINGREQ packets.
- `src/mqtt_entities/mqtt.rs`: a connection's session (buffer, settings,
  last activity, timeout rule).
- `src/mqtt_routes/route_entity.rs`: the subscription tree, with the laws
  relating subscribing and looking a topic up.
- `src/mqtt_server.rs`: the broker state and the decision taken for each
  packet; the caller performs the socket reads and writes it asks for.
- `src/topic.rs`: UTF-8 decoding and `/`-splitting of topics.
- `app/main.rs`: the program around the library: listening socket, threads,
  clock and the loop over the connections.

Connections are known by number; times are nanoseconds on the program's
monotonic clock.
