use rust_benchy::error::Error;

fn text(word: &str) -> String {
    word.to_owned()
}

#[test]
fn messages_name_what_went_wrong() {
    let cases = vec![
        (Error::Config(text("a")), "invalid configuration: a"),
        (
            Error::Request { url: text("u"), source: text("s") },
            "request to u failed: s",
        ),
        (
            Error::HttpStatus { url: text("u"), status: text("404 Not Found"), body: text("b") },
            "endpoint returned HTTP 404 Not Found for u: b",
        ),
        (
            Error::Protocol { endpoint: text("e"), message: text("m") },
            "invalid response from e: m",
        ),
        (
            Error::Json { context: text("c"), source: text("s") },
            "failed to parse JSON from c: s",
        ),
        (
            Error::Tokenizer { name: text("n"), message: text("m") },
            "failed to load tokenizer 'n': m",
        ),
        (
            Error::ReadFile { path: text("p"), source: text("s") },
            "failed to read p: s",
        ),
        (
            Error::WriteFile { path: text("p"), source: text("s") },
            "failed to write p: s",
        ),
        (Error::Csv(text("x")), "failed to serialize CSV report: x"),
        (
            Error::PostRun { command: text("c"), status: text("exit status: 1") },
            "post-run command failed with status exit status: 1: c",
        ),
        (
            Error::StartPostRun { command: text("c"), source: text("s") },
            "failed to start post-run command 'c': s",
        ),
        (Error::Benchmark(text("b")), "benchmark request failed: b"),
        (Error::Interrupted, "benchmark was interrupted"),
    ];
    for (error, message) in cases {
        assert_eq!(error.message(), message);
    }
}
