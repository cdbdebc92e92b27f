//! What can go wrong, and how it is told to the user.

use vstd::prelude::*;

verus! {

/// A failure. Where it was caused by another component, `source` holds that
/// component's own words.
#[derive(Debug)]
pub enum Error {
    Config(String),
    Request { url: String, source: String },
    HttpStatus { url: String, status: String, body: String },
    Protocol { endpoint: String, message: String },
    Json { context: String, source: String },
    Tokenizer { name: String, message: String },
    ReadFile { path: String, source: String },
    WriteFile { path: String, source: String },
    Csv(String),
    PostRun { command: String, status: String },
    StartPostRun { command: String, source: String },
    Benchmark(String),
    Interrupted,
}

/// The content of an [`Error`].
pub enum ErrorView {
    Config(Seq<char>),
    Request { url: Seq<char>, source: Seq<char> },
    HttpStatus { url: Seq<char>, status: Seq<char>, body: Seq<char> },
    Protocol { endpoint: Seq<char>, message: Seq<char> },
    Json { context: Seq<char>, source: Seq<char> },
    Tokenizer { name: Seq<char>, message: Seq<char> },
    ReadFile { path: Seq<char>, source: Seq<char> },
    WriteFile { path: Seq<char>, source: Seq<char> },
    Csv(Seq<char>),
    PostRun { command: Seq<char>, status: Seq<char> },
    StartPostRun { command: Seq<char>, source: Seq<char> },
    Benchmark(Seq<char>),
    Interrupted,
}

impl View for Error {
    type V = ErrorView;

    open spec fn view(&self) -> ErrorView {
        match *self {
            Error::Config(text) => ErrorView::Config(text@),
            Error::Request { url, source } => ErrorView::Request { url: url@, source: source@ },
            Error::HttpStatus { url, status, body } => ErrorView::HttpStatus {
                url: url@,
                status: status@,
                body: body@,
            },
            Error::Protocol { endpoint, message } => ErrorView::Protocol {
                endpoint: endpoint@,
                message: message@,
            },
            Error::Json { context, source } => ErrorView::Json {
                context: context@,
                source: source@,
            },
            Error::Tokenizer { name, message } => ErrorView::Tokenizer {
                name: name@,
                message: message@,
            },
            Error::ReadFile { path, source } => ErrorView::ReadFile {
                path: path@,
                source: source@,
            },
            Error::WriteFile { path, source } => ErrorView::WriteFile {
                path: path@,
                source: source@,
            },
            Error::Csv(text) => ErrorView::Csv(text@),
            Error::PostRun { command, status } => ErrorView::PostRun {
                command: command@,
                status: status@,
            },
            Error::StartPostRun { command, source } => ErrorView::StartPostRun {
                command: command@,
                source: source@,
            },
            Error::Benchmark(text) => ErrorView::Benchmark(text@),
            Error::Interrupted => ErrorView::Interrupted,
        }
    }
}

impl ErrorView {
    /// The sentence that the user reads.
    pub open spec fn message(self) -> Seq<char> {
        match self {
            ErrorView::Config(text) => "invalid configuration: "@ + text,
            ErrorView::Request { url, source } => "request to "@ + url + " failed: "@ + source,
            ErrorView::HttpStatus { url, status, body } => "endpoint returned HTTP "@ + status
                + " for "@ + url + ": "@ + body,
            ErrorView::Protocol { endpoint, message } => "invalid response from "@ + endpoint
                + ": "@ + message,
            ErrorView::Json { context, source } => "failed to parse JSON from "@ + context + ": "@
                + source,
            ErrorView::Tokenizer { name, message } => "failed to load tokenizer '"@ + name + "': "@
                + message,
            ErrorView::ReadFile { path, source } => "failed to read "@ + path + ": "@ + source,
            ErrorView::WriteFile { path, source } => "failed to write "@ + path + ": "@ + source,
            ErrorView::Csv(text) => "failed to serialize CSV report: "@ + text,
            ErrorView::PostRun { command, status } => "post-run command failed with status "@
                + status + ": "@ + command,
            ErrorView::StartPostRun { command, source } => "failed to start post-run command '"@
                + command + "': "@ + source,
            ErrorView::Benchmark(text) => "benchmark request failed: "@ + text,
            ErrorView::Interrupted => "benchmark was interrupted"@,
        }
    }
}

/// `lead`, `first`, `middle` and `second` one after the other.
fn sentence(lead: &str, first: &str, middle: &str, second: &str) -> (r: String)
    ensures
        r@ == lead@ + first@ + middle@ + second@,
{
    let mut text = lead.to_owned();
    text.append(first);
    text.append(middle);
    text.append(second);
    text
}

impl Error {
    /// The sentence that the user reads.
    pub fn message(&self) -> (r: String)
        ensures
            r@ == self@.message(),
    {
        match self {
            Error::Config(text) => "invalid configuration: ".to_owned().concat(text.as_str()),
            Error::Request { url, source } => sentence(
                "request to ",
                url.as_str(),
                " failed: ",
                source.as_str(),
            ),
            Error::HttpStatus { url, status, body } => {
                let mut text = sentence(
                    "endpoint returned HTTP ",
                    status.as_str(),
                    " for ",
                    url.as_str(),
                );
                text.append(": ");
                text.append(body.as_str());
                text
            },
            Error::Protocol { endpoint, message } => sentence(
                "invalid response from ",
                endpoint.as_str(),
                ": ",
                message.as_str(),
            ),
            Error::Json { context, source } => sentence(
                "failed to parse JSON from ",
                context.as_str(),
                ": ",
                source.as_str(),
            ),
            Error::Tokenizer { name, message } => sentence(
                "failed to load tokenizer '",
                name.as_str(),
                "': ",
                message.as_str(),
            ),
            Error::ReadFile { path, source } => sentence(
                "failed to read ",
                path.as_str(),
                ": ",
                source.as_str(),
            ),
            Error::WriteFile { path, source } => sentence(
                "failed to write ",
                path.as_str(),
                ": ",
                source.as_str(),
            ),
            Error::Csv(text) => "failed to serialize CSV report: ".to_owned().concat(text.as_str()),
            Error::PostRun { command, status } => sentence(
                "post-run command failed with status ",
                status.as_str(),
                ": ",
                command.as_str(),
            ),
            Error::StartPostRun { command, source } => sentence(
                "failed to start post-run command '",
                command.as_str(),
                "': ",
                source.as_str(),
            ),
            Error::Benchmark(text) => "benchmark request failed: ".to_owned().concat(text.as_str()),
            Error::Interrupted => "benchmark was interrupted".to_owned(),
        }
    }
}

} // verus!
