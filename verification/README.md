# rust-benchy

A verified library for benchmarking OpenAI-compatible `/v1/chat/completions`
endpoints, and the command line program around it. It measures prompt processing,
token generation, time to first response, end-to-end time to first token and peak
generation throughput across prompt sizes, context depths and concurrency levels.

## Layout

- `src/` is the library. Everything in it is verified with Verus.
  - `config`: options, their checks, extra request fields, model detection.
  - `corpus`, `prompt`: the text that prompts are cut from, the calibration of
    prompt sizes and the prompts themselves.
  - `client`: request bodies, the reading of streamed answers, token counts and
    token times, latency measurement.
  - `metrics`: rates, peaks and times of measured requests.
  - `runner`: the course of a benchmark, step by step.
  - `report`: the Markdown and CSV reports.
  - `json`, `text`, `exact`, `clock`, `error`: what the others build on.
- `app/` is the program: command line, HTTP, files, the post-run command, and the
  means and deviations, which are floating-point numbers.
- `tests/` runs the library on concrete values.

## Conventions

Points in time are whole ticks of an attosecond since the client was made. A
measured value is a pair of an amount and what it is measured per, so that nothing
is rounded before it is printed. The library makes no request and reads no clock:
`runner::Suite`, `client::SseReader` and `client::LatencyMeasurement` say what is to
be done next and are told what came of it.

Public proof functions named `law_...` state what holds of the library as a whole.
Functions marked `external_body` call another crate or the standard library; the
comment above each says what is relied on.
