//! Apache Tika as a reader for formats the built-in readers handle poorly:
//! when it is available, and what its answers mean.
use vstd::prelude::*;
use crate::config::opt_text;
use crate::extract::{
    from_utf8_lossy, utf8_lossy, is_tika_format, tika_formats, ExtractedContent,
};
use crate::text::{
    chars_of, contains, contains_str, decimal, owned, push_decimal, push_str, skip_end,
    string_from_range, trim, is_blank, strip_end, Strip,
};

verus! {

/// Configuration for Tika.
#[derive(Debug)]
pub struct TikaConfig {
    /// URL of a running Tika server.
    pub server_url: Option<String>,
    /// Path of the Tika application JAR.
    pub jar_path: Option<String>,
    /// Whether to fall back to the built-in readers when Tika fails.
    pub fallback: bool,
}

impl Default for TikaConfig {
    fn default() -> (c: Self)
        ensures
            c.server_url is None,
            c.jar_path is None,
            c.fallback,
    {
        TikaConfig { server_url: None, jar_path: None, fallback: true }
    }
}

/// A Tika reader.
#[derive(Debug)]
pub struct TikaParser {
    pub config: TikaConfig,
}

/// What a run of the Tika JAR printed and how it ended.
#[derive(Debug)]
pub struct JarOutput {
    pub success: bool,
    pub stdout: Vec<u8>,
    pub stderr: Vec<u8>,
}

/// Why Tika gave no text.
#[derive(Debug)]
pub enum TikaError {
    /// Java could not be started.
    JavaMissing,
    /// The JAR failed; carries what it printed on stderr.
    JarFailed(String),
    /// The JAR printed no text.
    EmptyOutput,
    /// The server answered with a status other than success; carries the
    /// status and the body.
    ServerStatus(u16, String),
    /// Tika failed and falling back is disabled.
    NoFallback,
    /// The file could not be read or the server could not be reached;
    /// carries the reason.
    Io(String),
}

impl TikaError {
    /// The message reported for this failure.
    pub fn message(&self) -> (m: String)
        ensures
            match self {
                TikaError::JavaMissing => m@ == "Java is not installed or not in PATH"@,
                TikaError::JarFailed(e) => m@ == "Tika JAR failed: "@ + e@,
                TikaError::EmptyOutput => m@ == "Tika JAR returned empty text"@,
                TikaError::ServerStatus(status, body) => m@ == "Tika server returned HTTP "@
                    + decimal(*status as nat) + ": "@ + body@,
                TikaError::NoFallback => m@ == "Tika extraction failed and fallback is disabled"@,
                TikaError::Io(e) => m@ == e@,
            },
    {
        match self {
            TikaError::JavaMissing => owned("Java is not installed or not in PATH"),
            TikaError::JarFailed(e) => {
                let mut m = owned("Tika JAR failed: ");
                push_str(&mut m, e.as_str());
                m
            },
            TikaError::EmptyOutput => owned("Tika JAR returned empty text"),
            TikaError::ServerStatus(status, body) => {
                let mut m = owned("Tika server returned HTTP ");
                push_decimal(&mut m, *status as u64);
                push_str(&mut m, ": ");
                push_str(&mut m, body.as_str());
                m
            },
            TikaError::NoFallback => owned("Tika extraction failed and fallback is disabled"),
            TikaError::Io(e) => owned(e.as_str()),
        }
    }
}

/// What a run of the JAR gives: its output as text when it succeeded and
/// printed something other than whitespace.
pub open spec fn jar_result(o: JarOutput) -> Result<Seq<char>, TikaError> {
    if !o.success {
        let err = utf8_lossy(o.stderr@);
        if contains(err, "CreateProcess error=2"@) || contains(err, "not found"@) {
            Err(TikaError::JavaMissing)
        } else {
            Err(TikaError::JarFailed(arbitrary()))
        }
    } else if trim(utf8_lossy(o.stdout@)).len() == 0 {
        Err(TikaError::EmptyOutput)
    } else {
        Ok(utf8_lossy(o.stdout@))
    }
}

/// A failed run means Java is missing when its stderr says `not found` or
/// `CreateProcess error=2`, else the JAR failed; a run that succeeded but
/// printed only whitespace gave no text; otherwise its output is the text.
pub proof fn law_jar_outcomes(o: JarOutput)
    ensures
        !o.success && (contains(utf8_lossy(o.stderr@), "not found"@) || contains(
            utf8_lossy(o.stderr@),
            "CreateProcess error=2"@,
        )) ==> jar_result(o) == Err::<Seq<char>, TikaError>(TikaError::JavaMissing),
        !o.success && !contains(utf8_lossy(o.stderr@), "not found"@) && !contains(
            utf8_lossy(o.stderr@),
            "CreateProcess error=2"@,
        ) ==> jar_result(o) matches Err(TikaError::JarFailed(_)),
        o.success && trim(utf8_lossy(o.stdout@)).len() == 0 ==> jar_result(o) == Err::<
            Seq<char>,
            TikaError,
        >(TikaError::EmptyOutput),
        o.success && trim(utf8_lossy(o.stdout@)).len() > 0 ==> jar_result(o) == Ok::<
            Seq<char>,
            TikaError,
        >(utf8_lossy(o.stdout@)),
{
}

/// `e` is the error a failed run of the JAR gives: Java missing, the JAR
/// failing with its stderr as text, or no text printed.
pub open spec fn jar_error(o: JarOutput, e: TikaError) -> bool {
    match (e, jar_result(o)) {
        (TikaError::JarFailed(m), Err(TikaError::JarFailed(_))) => m@ == utf8_lossy(o.stderr@),
        (TikaError::JavaMissing, Err(TikaError::JavaMissing)) => true,
        (TikaError::EmptyOutput, Err(TikaError::EmptyOutput)) => true,
        _ => false,
    }
}

/// Reads the output of a run of the JAR.
pub fn jar_text(o: &JarOutput) -> (r: Result<String, TikaError>)
    ensures
        match r {
            Ok(t) => jar_result(*o) matches Ok(u) && t@ == u,
            Err(e) => jar_error(*o, e),
        },
{
    if !o.success {
        let err = from_utf8_lossy(o.stderr.as_slice());
        if contains_str(err.as_str(), "CreateProcess error=2") || contains_str(
            err.as_str(),
            "not found",
        ) {
            return Err(TikaError::JavaMissing);
        }
        return Err(TikaError::JarFailed(err));
    }
    let text = from_utf8_lossy(o.stdout.as_slice());
    if is_blank(text.as_str()) {
        return Err(TikaError::EmptyOutput);
    }
    Ok(text)
}

impl TikaParser {
    pub fn new(config: TikaConfig) -> (p: Self)
        ensures
            p.config == config,
    {
        TikaParser { config }
    }

    /// Tika is available when a server URL or a JAR path is configured.
    pub fn is_available(&self) -> (b: bool)
        ensures
            b == (self.config.server_url is Some || self.config.jar_path is Some),
    {
        self.config.server_url.is_some() || self.config.jar_path.is_some()
    }

    /// The content read by a run of the JAR on a file of type `mime`.
    pub fn extract_via_jar_blocking(&self, output: &JarOutput, mime: &str) -> (r: Result<
        ExtractedContent,
        TikaError,
    >)
        ensures
            match r {
                Ok(c) => jar_result(*output) matches Ok(t) && c.text@ == t && c.mime_type@ == mime@
                    && c.used_tika,
                Err(e) => jar_error(*output, e),
            },
    {
        match jar_text(output) {
            Ok(text) => Ok(ExtractedContent { text, mime_type: owned(mime), used_tika: true }),
            Err(e) => Err(e),
        }
    }

    /// What reading a file through Tika gives: nothing when Tika is not
    /// configured at all; otherwise, after trying the server (when one is
    /// configured) and then, if the server gave no text, the JAR (when one
    /// is configured), the first text Tika gave, else nothing when falling
    /// back is allowed and an error when it is not.
    pub fn combine_attempts(
        &self,
        server: Option<Result<String, TikaError>>,
        jar: Option<Result<String, TikaError>>,
    ) -> (r: Result<Option<String>, TikaError>)
        ensures
            !(self.config.server_url is Some || self.config.jar_path is Some) ==> r matches Ok(
                None,
            ),
            (self.config.server_url is Some || self.config.jar_path is Some) ==> {
                &&& server matches Some(Ok(t)) ==> (r matches Ok(Some(u)) && u@ == t@)
                &&& !(server matches Some(Ok(_))) ==> match jar {
                    Some(Ok(t)) => r matches Ok(Some(u)) && u@ == t@,
                    _ => if self.config.fallback {
                        r matches Ok(None)
                    } else {
                        r matches Err(TikaError::NoFallback)
                    },
                }
            },
    {
        if !self.is_available() {
            return Ok(None);
        }
        match server {
            Some(Ok(t)) => return Ok(Some(t)),
            _ => {},
        }
        match jar {
            Some(Ok(t)) => return Ok(Some(t)),
            _ => {},
        }
        if self.config.fallback {
            Ok(None)
        } else {
            Err(TikaError::NoFallback)
        }
    }
}

/// The Tika server's text endpoint: the URL without trailing slashes, then `/tika`.
pub fn tika_endpoint(server_url: &str) -> (r: String)
    ensures
        r@ == strip_end(server_url@, Strip::Exactly('/')) + "/tika"@,
{
    let v = chars_of(server_url);
    assert(v@.subrange(0, v@.len() as int) == v@);
    let j = skip_end(&v, 0, v.len(), Strip::Exactly('/'));
    let mut r = string_from_range(&v, 0, j);
    push_str(&mut r, "/tika");
    r
}

/// Reads the server's reply: its body when the status is a success (2xx).
pub fn server_reply(status: u16, body: String) -> (r: Result<String, TikaError>)
    ensures
        200 <= status < 300 ==> (r matches Ok(t) && t@ == body@),
        !(200 <= status < 300) ==> (r matches Err(TikaError::ServerStatus(s, b)) && s == status
            && b@ == body@),
{
    if 200 <= status && status < 300 {
        Ok(body)
    } else {
        Err(TikaError::ServerStatus(status, body))
    }
}

/// How a file is read where blocking calls are allowed.
#[derive(Debug)]
pub enum SyncRoute {
    /// Through the Tika JAR at this path.
    Jar(String),
    /// Tika format without a usable JAR: plain text, or its readable strings.
    Fallback,
    /// The built-in readers (`extract_text` without Tika).
    Builtin,
}

/// Chooses how a file of type `mime` is read where blocking calls are
/// allowed: through the Tika JAR when the type needs Tika and a JAR is
/// configured, else the built-in readers.
pub fn sync_route(mime: &str, tika: Option<&TikaParser>) -> (r: SyncRoute)
    ensures
        !tika_formats().contains(mime@) ==> r is Builtin,
        tika_formats().contains(mime@) ==> match tika {
            Some(p) => if (p.config.server_url is Some || p.config.jar_path is Some)
                && p.config.jar_path is Some {
                r matches SyncRoute::Jar(j) && Some(j@) == opt_text(p.config.jar_path)
            } else {
                r is Fallback
            },
            None => r is Fallback,
        },
{
    if !is_tika_format(mime) {
        return SyncRoute::Builtin;
    }
    match tika {
        Some(p) => {
            if p.is_available() {
                match &p.config.jar_path {
                    Some(j) => return SyncRoute::Jar(owned(j.as_str())),
                    None => {},
                }
            }
            SyncRoute::Fallback
        },
        None => SyncRoute::Fallback,
    }
}

/// Where the Tika JAR is looked for, in order.
pub open spec fn jar_candidates() -> Seq<Seq<char>> {
    seq![
        "tika-app.jar"@,
        "tika-server.jar"@,
        "tika-server-standard.jar"@,
        "../tika-app.jar"@,
        "./tools/tika-app.jar"@,
        "./lib/tika-app.jar"@,
    ]
}

/// The places the Tika JAR is looked for, in order.
pub fn tika_jar_candidates() -> (v: Vec<String>)
    ensures
        v.deep_view() == jar_candidates(),
{
    let mut v: Vec<String> = Vec::new();
    v.push(owned("tika-app.jar"));
    v.push(owned("tika-server.jar"));
    v.push(owned("tika-server-standard.jar"));
    v.push(owned("../tika-app.jar"));
    v.push(owned("./tools/tika-app.jar"));
    v.push(owned("./lib/tika-app.jar"));
    assert(v.deep_view() =~= jar_candidates());
    v
}

/// The first candidate that exists, given which of
/// `tika_jar_candidates()` exist.
pub fn find_tika_jar(exists: &Vec<bool>) -> (r: Option<String>)
    requires
        exists@.len() == jar_candidates().len(),
    ensures
        match r {
            Some(j) => exists|i: int|
                0 <= i < exists@.len() && exists@[i] && j@ == jar_candidates()[i] && forall|
                    k: int,
                | 0 <= k < i ==> !exists@[k],
            None => forall|i: int| 0 <= i < exists@.len() ==> !exists@[i],
        },
{
    let candidates = tika_jar_candidates();
    let mut i: usize = 0;
    while i < exists.len()
        invariant
            i <= exists@.len() == candidates.deep_view().len(),
            candidates.deep_view() == jar_candidates(),
            forall|k: int| 0 <= k < i ==> !exists@[k],
        decreases exists@.len() - i,
    {
        if exists[i] {
            assert(candidates.deep_view()[i as int] == candidates@[i as int]@);
            return Some(owned(candidates[i].as_str()));
        }
        i += 1;
    }
    None
}

}
