# imap_codec

An IMAP codec whose behaviour is stated in contracts and proved by Verus.

- `grammar`, `number`, `strings`, `sequence`, `mailbox`, `flag`, `date`, `status`,
  `search`, `fetch`, `command`, `response`, `structure` and `body` (the structure of
  a message), `answers` and `threads` (the responses of extensions): the syntax.
  `shapes` puts values side by side. Each construct has a rule
  (what is read from the front of a byte sequence, whether more bytes are needed,
  or that none will help), tokens (what is written), and a parser and an encoder
  that are proved to follow them.
- `extensions`: modification sequences (CONDSTORE, QRESYNC) and the IMAP4rev2
  forms of SEARCH and LIST; their types are in `rev2`.
- `roundtrip`: whatever is decoded is encoded to bytes that decode to it again.
- `codec`: decoding and encoding of whole messages.
- `client_capabilities`: what was advertised, what was enabled, and which
  commands may be sent.
- `append`: APPEND of a message that is sent apart from the command.
- `spelling`, `payloads`: the literals of a text, and that a response holds the
  literals of the text that it was read from.
- `fragmentizer`: lines, literal announcements, and a decoder that hands out the
  literals of a response without holding them in memory. `runs` and `cuts` state
  what holds over all that is done with it: memory stays bounded, each literal of
  a complete response resolves to its descriptor, and the way in which input is
  cut into pieces does not matter.

The grammar of responses covers status responses with their codes, continuation
requests, CAPABILITY, ENABLED, LIST and LSUB, STATUS, SEARCH, ESEARCH, FLAGS,
EXISTS, RECENT, EXPUNGE, VANISHED, SORT, THREAD, QUOTA, QUOTAROOT, ID, METADATA
and NAMESPACE, and FETCH with FLAGS, INTERNALDATE, RFC822 and its parts, UID, BODY
sections, BINARY, BINARY.SIZE, MODSEQ, ENVELOPE, BODY and BODYSTRUCTURE.

Refused, by the codecs and by the streaming decoder:

- responses: PREAUTH, which only greets; items of FETCH and untagged responses
  that are not named above; a list of QUOTA without resources; threads, bodies,
  the extension data of bodies and the extension values of LIST and ESEARCH that
  nest more than 16 levels deep.
- commands: search keys that nest more than 9 levels deep; commands and options
  of extensions that `command` does not name, such as NOTIFY, CATENATE or several
  messages in one APPEND.
- the lines that a client sends outside of a command: what it answers to a
  challenge of AUTHENTICATE, and the end of IDLE.

`app/` holds what stands around the library: types that can be serialized, and
errors that implement the traits of the standard library.
