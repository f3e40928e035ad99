# rp_agent

An agent that lives in Telegram chats: it buffers what arrives, wakes a language model, runs the
tools that the model calls, and keeps the conversation within the model's context by compaction.

What the agent decides is a library verified with [Verus](https://github.com/verus-lang/verus).
What it does outside — files, processes, HTTP, timers — is a thin program around it.

## The library (`src/`)

| Module | What it decides |
|---|---|
| `tg` | the ingress filter, requests to the Bot API and what answers come to |
| `poller` | start-up, and how far updates were read |
| `channels` | the registry of channels, their names, and the lines of their logs |
| `chats` | a registry of chats with capped histories |
| `session` | messages, the log that they are the fold of, repair, token estimates |
| `turn` | the course of a turn and of compaction, as a state machine |
| `llm` | the wire form of a conversation, replies, errors and retries |
| `tools` | tool schemas, arguments, plans and reports |
| `output` | chunks, streams, pages and literal replacement |
| `markdown`, `html` | Markdown as the HTML that Telegram accepts, always balanced |
| `agent` | the `/model` command, how events are shown, the message that wakes the model |
| `config` | defaults, and what must be known before the agent starts |
| `json`, `web`, `paths`, `naming`, `order`, `search`, `number`, `text`, `unicode` | what the others are made of |

A function's `ensures` says what it returns for every input that it takes. What holds across
functions stands in public proof functions whose names begin with `law_`.

Calls into other crates and into the parts of the standard library that have no specification are
made by small functions marked `external_body`. The comment above each says what is taken for
granted.

## The program (`app/`)

`main.rs` runs the poller and the agent, `net.rs` speaks HTTP, `store.rs` keeps the files, `work.rs`
does what tools do outside, and `dto.rs` holds the forms in which values are read and written.
