# dwim

The core of a coding agent that runs a language model on the machine it works
on: the model's file format, its tokenizer, the chat around it, the model
itself as operations on a device, and the harness that runs the tools it calls.

The library, in `src/`, is written in Verus. Functions state in their contracts
what they return and what they change, and are proved to keep to it. Of times
that were measured, and of the order in which a listener is called, nothing is
stated.

- `gguf` reads and writes model files, and `tensor` holds what they hold.
- `tokenizer` turns text into tokens and back.
- `chat` keeps a conversation in the format the model was trained on: it frames
  turns, streams replies, and finds the calls in them.
- `model` and `sampler` are what a chat asks of a model and of what picks its
  tokens. `testing` is a model that follows a script.
- `bonsai` is the model: full and linear attention on a `device`, with a state
  that can be saved, restored, and run ahead with a draft.
- `gpu` plans what a GPU runs, and in what order, and holds its operations
  against a reference's.
- `read` is the tool that reads files, and `harness` the agent around it all.

Floating-point numbers are held as their bits. What is done with them is up to
the device, and of its operations the library knows only that they are
functions of what they are given.

A few functions of the standard library, of `fancy_regex` and of `serde_json`
are taken at their word; each stands behind a small function that says what is
believed of it.

`app/` is ordinary Rust around the library: mapped files, Vulkan, processes,
and floating point. `tests/` runs the library on concrete values, on a device of
plain arithmetic among others.
