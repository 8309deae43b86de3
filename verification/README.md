# LightningLLM

LightningLLM runs language models on the local machine, from the command line. This
crate is its core: a library whose functions carry contracts that Verus proves.

- `config`: the model tiers, their listing, and the settings of a run
- `console`: what is said besides the model's answer
- `download`: fetching a model file so that a broken download never takes its place
- `prompt`: how a question or a conversation is written down for a model
- `session`: carrying a conversation on
- `thinking`: hiding a model's reasoning while its output streams in
- `stream`: what the filter makes of a whole stream, stated and proved
- `inference`: from the tokens that a model samples to an answer
- `text`: searching, cutting and measuring text

`app/` is the program around it: the command line, files, the network, the console
and the model itself.

A few functions of the standard library and of `reqwest` are taken at their word:
`str::trim`, `String::from_utf8_lossy`, `HeaderValue::from_bytes` with
`HeaderValue::to_str`, `StatusCode::from_u16` with `StatusCode::is_success`, and the
display of a `StatusCode`. Each stands behind an item whose doc comment says what is
believed of it.

The text that a filter holds back is counted in bytes. `ThinkingFilter::process` must
not be given a piece that would make it cut a character in two;
`ThinkingFilter::accepts` tells.
