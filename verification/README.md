# bridge

A bridge between Matrix rooms and Discord channels.

The library under `src/` holds what the bridge decides: how messages of one side are shown on the
other, which requests are made and what their replies mean, who may do what, what is remembered, and
what commands answer. It is verified with [Verus](https://github.com/verus-lang/verus) against contracts
that are stated over plain mathematical values; only the functions that hand on how many entries a
cache counts promise nothing, since that is an estimate. Public proof functions whose names
begin with `law_` state what holds of the library as a whole.

The program under `app/` does what is left: it talks to the homeserver, to Discord and to the
database, and hands the library plain values. Where an event needs several questions answered in
turn, the library has a type that holds what is known so far, with a method `next` that says what to
ask next (`ChannelGate`, `EmoteLookup`, `RedactionCase`, `WebhookCase`, `LinkCase`,
`UnlinkCase`), or a function `plan_..` that takes what is known so far.

| Modules | What they hold |
| --- | --- |
| `text`, `number`, `table`, `json` | strings, notation of numbers, maps, JSON values |
| `crypto`, `web`, `pattern`, `shell`, `markdown` | what outside crates compute, and what follows from it |
| `config`, `db`, `error`, `http`, `cache` | settings, records, errors, replies, memory |
| `avatar` | signed links to avatars |
| `message`, `matrix_client` | messages and requests for Matrix |
| `discord_client`, `discord_api` | events of Discord and requests to it |
| `appservice` | events and requests of the homeserver |
| `utils`, `user_commands`, `admin_commands` | commands and their answers |

Functions of outside crates stand behind small wrappers whose contracts Verus believes; the comment
above each wrapper says what is believed.
