# Ataulfo

A Discord bot that answers through an OpenAI-compatible chat endpoint.

- `src/` is the conversation logic, verified with Verus: which messages are remembered and which
  are answered (`handler`, `prompt`, `memory`), how a message becomes a turn (`message`), what the
  model is asked and how its answer is read (`ai`, `reasoning`), and how a reply is divided into
  messages and sent (`chunks`, `outbox`). `text`, `search`, `utf8` and `settings` support these.
- `app/` connects the logic to Discord, the provider, the file system and the environment.
- `tests/` runs the library on concrete values.

The bot reads `DISCORD_TOKEN`, `AI_BASE_URL`, `AI_API_KEY` and `AI_MODEL` from the environment,
and optionally `AI_MAX_TOKENS`, `AI_TEMPERATURE` and `PERSONALITY_FILE`.

Contracts are stated over `Seq<char>` views; the laws of each module are its public proof
functions named `law_*`.
