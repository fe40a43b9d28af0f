//! Configuring a [`LogParser`]: the file and its encoding, given or detected
//! from samples of the file.

use vstd::prelude::*;
use vstd::utf8::valid_utf8;
use crate::error::{ParseError, ParseErrorSpec};
use crate::parser::encoding::FileEncodingHint;
use crate::text::utf8_str;

verus! {

/// Bytes read from the start of a file to detect its encoding.
pub const HEAD_SAMPLE_LEN: u64 = 65536;

/// Bytes read from the end of a file to detect its encoding.
pub const TAIL_SAMPLE_LEN: u64 = 4096;

/// What was read of a file to detect its encoding: its first
/// [`HEAD_SAMPLE_LEN`] bytes (or all of it), and its last
/// [`TAIL_SAMPLE_LEN`] bytes beyond those, when there are any.
pub struct EncodingSample {
    pub head: Vec<u8>,
    pub tail: Option<Vec<u8>>,
}

/// A parser for one log file, made by [`LogParserBuilder`].
pub struct LogParser {
    path: String,
    encoding: FileEncodingHint,
}

impl LogParser {
    /// The path of the file.
    pub fn path(&self) -> (r: &str)
        ensures
            r@ == self.spec_path(),
    {
        self.path.as_str()
    }

    /// The encoding the file is read with.
    pub fn encoding(&self) -> (r: FileEncodingHint)
        ensures
            r == self.spec_encoding(),
    {
        self.encoding
    }

    pub closed spec fn spec_path(&self) -> Seq<char> {
        self.path@
    }

    pub closed spec fn spec_encoding(&self) -> FileEncodingHint {
        self.encoding
    }
}

/// Builds a [`LogParser`].
pub struct LogParserBuilder {
    path: String,
    encoding_hint: Option<FileEncodingHint>,
}

/// The encoding of a file by its sample: UTF-8 when both parts of the sample
/// are valid UTF-8, GB18030 otherwise.
pub open spec fn spec_detect(head: Seq<u8>, tail: Option<Seq<u8>>) -> FileEncodingHint {
    let tail_ok = match tail {
        Some(t) => valid_utf8(t),
        None => true,
    };
    if valid_utf8(head) && tail_ok {
        FileEncodingHint::Utf8
    } else {
        FileEncodingHint::Gb18030
    }
}

/// Detects the encoding of a file from its sample (see [`spec_detect`]).
pub fn detect_encoding(sample: &EncodingSample) -> (r: FileEncodingHint)
    ensures
        r == spec_detect(sample.head@, match sample.tail {
            Some(t) => Some(t@),
            None => None,
        }),
{
    let head_ok = utf8_str(sample.head.as_slice()).is_some();
    let tail_ok = match &sample.tail {
        Some(t) => utf8_str(t.as_slice()).is_some(),
        None => true,
    };
    if head_ok && tail_ok {
        FileEncodingHint::Utf8
    } else {
        FileEncodingHint::Gb18030
    }
}

/// Where the tail sample of a file of `file_size` bytes begins, after a head
/// sample of `head_len` bytes: `None` when the head holds the whole file,
/// else the later of `head_len` and [`TAIL_SAMPLE_LEN`] bytes before the end.
pub fn tail_sample_start(file_size: u64, head_len: u64) -> (r: Option<u64>)
    ensures
        file_size <= head_len ==> r is None,
        file_size > head_len ==> r == Some(
            if file_size >= TAIL_SAMPLE_LEN && file_size - TAIL_SAMPLE_LEN > head_len {
                (file_size - TAIL_SAMPLE_LEN) as u64
            } else {
                head_len
            },
        ),
{
    if file_size > head_len {
        let back = file_size.saturating_sub(TAIL_SAMPLE_LEN);
        Some(if back > head_len { back } else { head_len })
    } else {
        None
    }
}

impl LogParserBuilder {
    /// A builder for the file at `path`, with the encoding to be detected.
    pub fn new(path: &str) -> (r: LogParserBuilder)
        ensures
            r.spec_path() == path@,
            r.spec_hint() is None,
    {
        LogParserBuilder { path: path.to_owned(), encoding_hint: None }
    }

    /// Sets the encoding of the file, so that it is not detected.
    pub fn encoding_hint(self, hint: FileEncodingHint) -> (r: LogParserBuilder)
        ensures
            r.spec_path() == self.spec_path(),
            r.spec_hint() == Some(hint),
    {
        let mut b = self;
        b.encoding_hint = Some(hint);
        b
    }

    /// The path of the file.
    pub fn path(&self) -> (r: &str)
        ensures
            r@ == self.spec_path(),
    {
        self.path.as_str()
    }

    /// Whether [`build`](LogParserBuilder::build) needs a sample of the file,
    /// that is, whether no encoding was set.
    pub fn needs_sample(&self) -> (r: bool)
        ensures
            r == self.spec_hint() is None,
    {
        self.encoding_hint.is_none()
    }

    pub closed spec fn spec_path(&self) -> Seq<char> {
        self.path@
    }

    pub closed spec fn spec_hint(&self) -> Option<FileEncodingHint> {
        self.encoding_hint
    }

    /// Builds the parser. With an encoding set, the sample is not looked at;
    /// without one, the encoding is detected from the sample, and an error
    /// in reading the sample is returned.
    pub fn build(self, sample: Result<EncodingSample, ParseError>) -> (r: Result<LogParser, ParseError>)
        ensures
            match self.spec_hint() {
                Some(h) => r matches Ok(p) && p.spec_path() == self.spec_path() && p.spec_encoding() == h,
                None => match sample {
                    Err(e) => r matches Err(x) && x@ == e@,
                    Ok(s) => r matches Ok(p) && p.spec_path() == self.spec_path()
                        && p.spec_encoding() == spec_detect(s.head@, match s.tail {
                            Some(t) => Some(t@),
                            None => None,
                        }),
                },
            },
    {
        let encoding = match self.encoding_hint {
            Some(h) => h,
            None => match sample {
                Err(e) => return Err(e),
                Ok(s) => detect_encoding(&s),
            },
        };
        Ok(LogParser { path: self.path, encoding })
    }
}

} // verus!
