# turnhammer

A stress test for TURN (RFC 5766) servers. It allocates a number of relays,
makes each of them send back whatever arrives, sends numbered and time-stamped
datagrams through them at a steady pace, and reports loss and round-trip times.

`src/` is the verified core:

| module     | content                                                        |
|------------|----------------------------------------------------------------|
| `options`  | settings, the load they mean, and whether such a test may run  |
| `client`   | how one TURN client answers its server                         |
| `sender`   | what is sent, to whom and when                                 |
| `wire`     | the header of a datagram                                       |
| `jitter`   | putting replies back in the order of their numbers             |
| `stats`    | counting packets, gaps, duplicates and times under way         |
| `receiver` | from received datagrams to the figures of a measurement        |
| `report`   | the words of the report                                        |
| `laws`     | what holds of a whole measurement                              |
| `timespan` | lengths of time                                                |

`app/` is the program around it: the command line, sockets, threads and the
floating-point numbers of the report. The big-endian numbers of the header are read and
written by the `byteorder` crate, through the four functions at the top of
`wire` whose contracts are taken on trust.
