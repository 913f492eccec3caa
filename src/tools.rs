//! Handles on the external converters, their errors, and the source list
//! handed to the console converter.
use vstd::prelude::*;
use vstd::string::StringExecFns;

verus! {

/// What `String::from_utf8_lossy` makes of a byte sequence.
pub uninterp spec fn utf8_lossy(b: Seq<u8>) -> Seq<char>;

/// Relies on `String::from_utf8_lossy`: the decoded text, with invalid
/// sequences replaced.
#[verifier::external_body]
fn lossy_text(b: &[u8]) -> (r: String)
    ensures
        r@ == utf8_lossy(b@),
{
    String::from_utf8_lossy(b).to_string()
}

/// Errors of the audio transcoder.
#[derive(Debug, Clone)]
pub enum FFmpegError {
    IO(String),
    FFmpegNotFound,
    CommandFailed { code: Option<i32>, stdout: String, stderr: String },
    CommandExecutionFailed(String),
}

impl FFmpegError {
    /// The error of a command that exited with a failure, with its output.
    pub fn command_failed(code: Option<i32>, stdout: &[u8], stderr: &[u8]) -> (r: FFmpegError)
        ensures
            r matches FFmpegError::CommandFailed { code: c, stdout: o, stderr: e } && c == code
                && o@ == utf8_lossy(stdout@) && e@ == utf8_lossy(stderr@),
    {
        FFmpegError::CommandFailed { code, stdout: lossy_text(stdout), stderr: lossy_text(stderr) }
    }
}

/// A handle on the audio transcoder.
#[derive(Debug, Clone)]
pub struct FFmpegCli {
    pub program_path: String,
}

impl FFmpegCli {
    /// A handle on the transcoder at `program_path`, where it ran its version
    /// check (`runs`).
    pub fn new_with_path(program_path: String, runs: bool) -> (r: Option<FFmpegCli>)
        ensures
            runs ==> (r matches Some(c) && c.program_path@ == program_path@),
            !runs ==> r is None,
    {
        if !runs {
            return None;
        }
        Some(FFmpegCli { program_path })
    }

    pub fn program_path(&self) -> (r: &str)
        ensures
            r@ == self.program_path@,
    {
        self.program_path.as_str()
    }
}

/// Errors of the console converter.
#[derive(Debug, Clone)]
pub enum WwiseError {
    IO(String),
    WwiseConsoleNotFound,
    ProjectAlreadyExists(String),
    CommandFailed { code: Option<i32>, stdout: String, stderr: String },
    CommandExecutionFailed(String),
    Assertion(String),
}

impl WwiseError {
    /// The error of a command that exited with a failure, with its output.
    pub fn command_failed(code: Option<i32>, stdout: &[u8], stderr: &[u8]) -> (r: WwiseError)
        ensures
            r matches WwiseError::CommandFailed { code: c, stdout: o, stderr: e } && c == code
                && o@ == utf8_lossy(stdout@) && e@ == utf8_lossy(stderr@),
    {
        WwiseError::CommandFailed { code, stdout: lossy_text(stdout), stderr: lossy_text(stderr) }
    }
}

/// A handle on the console converter.
#[derive(Debug, Clone)]
pub struct WwiseConsole {
    pub console_path: String,
}

impl WwiseConsole {
    /// A handle on the console at `console_path`: it must exist, and must have
    /// answered its help command (`runs`).
    pub fn new_with_path(console_path: &str, exists: bool, runs: bool) -> (r: Result<
        WwiseConsole,
        WwiseError,
    >)
        ensures
            !exists ==> r matches Err(WwiseError::WwiseConsoleNotFound),
            exists && !runs ==> (r matches Err(WwiseError::Assertion(m)) && m@
                == "Found console but failed to test: "@ + console_path@),
            exists && runs ==> (r matches Ok(c) && c.console_path@ == console_path@),
    {
        if !exists {
            return Err(WwiseError::WwiseConsoleNotFound);
        }
        if !runs {
            let mut m = String::from_str("Found console but failed to test: ");
            m.append(console_path);
            return Err(WwiseError::Assertion(m));
        }
        Ok(WwiseConsole { console_path: String::from_str(console_path) })
    }

    pub fn program_path(&self) -> (r: &str)
        ensures
            r@ == self.console_path@,
    {
        self.console_path.as_str()
    }
}

/// A project of the console converter.
#[derive(Debug, Clone)]
pub struct WwiseProject {
    pub console_path: String,
    pub project_path: String,
}

impl WwiseProject {
    pub fn new(console: &WwiseConsole, project_path: String) -> (r: WwiseProject)
        ensures
            r.console_path@ == console.console_path@,
            r.project_path == project_path,
    {
        WwiseProject { console_path: String::from_str(console.program_path()), project_path }
    }

    pub fn project_path(&self) -> (r: &str)
        ensures
            r@ == self.project_path@,
    {
        self.project_path.as_str()
    }

    pub fn console_path(&self) -> (r: &str)
        ensures
            r@ == self.console_path@,
    {
        self.console_path.as_str()
    }
}

/// `s` with every occurrence of `from` replaced by `to`, scanning from the
/// left and not overlapping.
pub open spec fn replace_all(s: Seq<char>, from: Seq<char>, to: Seq<char>) -> Seq<char>
    recommends
        from.len() > 0,
    decreases s.len(),
{
    if from.len() == 0 || s.len() < from.len() {
        s
    } else if s.subrange(0, from.len() as int) == from {
        to + replace_all(s.subrange(from.len() as int, s.len() as int), from, to)
    } else {
        seq![s[0]] + replace_all(s.drop_first(), from, to)
    }
}

/// Relies on `str::replace`: every match of `from`, found from the left
/// without overlap, replaced by `to`.
#[verifier::external_body]
fn replace_str(s: &str, from: &str, to: &str) -> (r: String)
    requires
        from@.len() > 0,
    ensures
        r@ == replace_all(s@, from@, to@),
{
    s.replace(from, to)
}

/// A path in the converter's form: `\` as separator, and no verbatim prefix.
pub open spec fn console_path_of(s: Seq<char>) -> Seq<char> {
    replace_all(replace_all(s, "/"@, "\\"@), "\\\\?\\"@, ""@)
}

/// A path in the converter's form: `\` as separator, and no verbatim prefix.
pub fn to_console_path(s: &str) -> (r: String)
    ensures
        r@ == console_path_of(s@),
{
    proof {
        reveal_strlit("/");
        reveal_strlit("\\\\?\\");
    }
    let a = replace_str(s, "/", "\\");
    replace_str(a.as_str(), "\\\\?\\", "")
}

/// The list of sources handed to the console converter.
#[derive(Debug, Clone)]
pub struct WwiseSource {
    pub root: String,
    pub sources: Vec<String>,
}

/// One source line of the list.
pub open spec fn source_line(path: Seq<char>) -> Seq<char> {
    "    <Source Path=\""@ + path + "\" Conversion=\"Vorbis Quality High\"/>\n"@
}

pub open spec fn source_lines(sources: Seq<Seq<char>>) -> Seq<char>
    decreases sources.len(),
{
    if sources.len() == 0 {
        Seq::empty()
    } else {
        source_lines(sources.drop_last()) + source_line(sources.last())
    }
}

/// The XML text of a source list.
pub open spec fn source_list_xml(root: Seq<char>, sources: Seq<Seq<char>>) -> Seq<char> {
    "<?xml version=\"1.0\" encoding=\"UTF-8\"?>\n<ExternalSourcesList SchemaVersion=\"1\" Root=\""@
        + root + "\">\n"@ + source_lines(sources) + "\n</ExternalSourcesList>"@
}

impl WwiseSource {
    /// An empty list of sources under `root`, in the converter's path form.
    pub fn new(root: &str) -> (r: WwiseSource)
        ensures
            r.root@ == console_path_of(root@),
            r.sources@.len() == 0,
    {
        WwiseSource { root: to_console_path(root), sources: Vec::new() }
    }

    /// Adds a source, in the converter's path form.
    pub fn add_source(&mut self, source: &str)
        ensures
            final(self).root == old(self).root,
            final(self).sources@ == old(self).sources@.push(final(self).sources@.last()),
            final(self).sources@.last()@ == console_path_of(source@),
    {
        self.sources.push(to_console_path(source));
    }

    /// The source list as XML.
    pub fn to_xml(&self) -> (r: String)
        ensures
            r@ == source_list_xml(self.root@, self.sources@.map_values(|s: String| s@)),
    {
        let ghost sv = self.sources@.map_values(|s: String| s@);
        let mut lines = String::from_str("");
        proof {
            reveal_strlit("");
        }
        let mut i: usize = 0;
        while i < self.sources.len()
            invariant
                sv == self.sources@.map_values(|s: String| s@),
                i <= sv.len(),
                lines@ == source_lines(sv.take(i as int)),
            decreases sv.len() - i,
        {
            assert(sv.take(i + 1).drop_last() =~= sv.take(i as int));
            assert(sv[i as int] == self.sources@[i as int]@);
            lines.append("    <Source Path=\"");
            lines.append(self.sources[i].as_str());
            lines.append("\" Conversion=\"Vorbis Quality High\"/>\n");
            i = i + 1;
            assert(lines@ =~= source_lines(sv.take(i as int)));
        }
        assert(sv.take(i as int) =~= sv);
        let mut out = String::from_str(
            "<?xml version=\"1.0\" encoding=\"UTF-8\"?>\n<ExternalSourcesList SchemaVersion=\"1\" Root=\"",
        );
        out.append(self.root.as_str());
        out.append("\">\n");
        out.append(lines.as_str());
        out.append("\n</ExternalSourcesList>");
        assert(out@ =~= source_list_xml(self.root@, sv));
        out
    }
}

} // verus!
