//! Out-of-process plugins: the manifest, the messages of the line-delimited
//! JSON protocol, and the host's decisions on what a plugin answers.

use vstd::prelude::*;
use crate::media::lemma_decimal_value;
use crate::text::{chars_of, decimal_spec, decimal_text, is_blank, joined, trim_spec};

verus! {

/// Version of the host/plugin protocol.
pub const PROTOCOL_VERSION: u32 = 1;

/// How a plugin runs: an outside command with arguments.
#[derive(Debug, Clone, PartialEq)]
pub enum PluginKind {
    Command { program: String, args: Vec<String> },
}

/// What a plugin declares about itself: name, version, description and how it runs.
#[derive(Debug, Clone, PartialEq)]
pub struct Manifest {
    pub name: String,
    pub version: String,
    pub description: String,
    pub kind: PluginKind,
}

/// An RGBA8 frame file, row-major, `width * height * 4` bytes.
#[derive(Debug, Clone, PartialEq)]
pub struct FrameFile {
    pub path: String,
    pub size: u64,
}

/// What a plugin answers.
#[derive(Debug, Clone, PartialEq)]
pub enum Reply {
    Ready,
    Done,
    Error { message: String },
}

/// Why talking to a plugin failed.
#[derive(Debug, Clone, PartialEq)]
pub enum HostError {
    Spawn(String),
    Timeout(&'static str),
    Protocol(String),
    Plugin(String),
    Exited,
    Io(String),
}

impl HostError {
    /// How the error reads for a person.
    pub fn message(&self) -> (m: String)
        ensures
            m@ == match *self {
                HostError::Spawn(e) => "spawn failed: "@ + e@,
                HostError::Timeout(op) => op@ + " timed out"@,
                HostError::Protocol(e) => "protocol error: "@ + e@,
                HostError::Plugin(e) => "plugin error: "@ + e@,
                HostError::Exited => "plugin exited"@,
                HostError::Io(e) => "io error: "@ + e@,
            },
    {
        broadcast use vstd::string::group_string_axioms;
        match self {
            HostError::Spawn(e) => joined("spawn failed: ", e.as_str()),
            HostError::Timeout(op) => joined(op, " timed out"),
            HostError::Protocol(e) => joined("protocol error: ", e.as_str()),
            HostError::Plugin(e) => joined("plugin error: ", e.as_str()),
            HostError::Exited => "plugin exited".to_string(),
            HostError::Io(e) => joined("io error: ", e.as_str()),
        }
    }
}

/// How long the handshake with a plugin may take, in milliseconds.
pub const INIT_TIMEOUT_MS: u64 = 10_000;

/// How long a plugin may take to render a frame, in milliseconds.
pub const RENDER_TIMEOUT_MS: u64 = 30_000;

/// Where the host writes frame files (created when missing) and how long it
/// waits for a plugin's replies.
#[derive(Debug, Clone, PartialEq)]
pub struct HostConfig {
    pub workdir: String,
    pub init_timeout_ms: u64,
    pub render_timeout_ms: u64,
}

impl HostConfig {
    /// Frame files under `workdir`, 10 s for the handshake and 30 s per frame.
    pub fn with_workdir(workdir: String) -> (c: HostConfig)
        ensures
            c.workdir == workdir,
            c.init_timeout_ms == INIT_TIMEOUT_MS,
            c.render_timeout_ms == RENDER_TIMEOUT_MS,
    {
        HostConfig { workdir, init_timeout_ms: INIT_TIMEOUT_MS, render_timeout_ms: RENDER_TIMEOUT_MS }
    }
}

pub open spec fn blank(s: Seq<char>) -> bool {
    trim_spec(s).len() == 0
}

/// The program a manifest runs.
pub open spec fn program_of(m: Manifest) -> Seq<char> {
    match m.kind {
        PluginKind::Command { program, .. } => program@,
    }
}

impl Manifest {
    /// A manifest needs a non-blank name and a non-blank program.
    pub fn validate(&self) -> (r: Result<(), String>)
        ensures
            match r {
                Ok(()) => !blank(self.name@) && !blank(program_of(*self)),
                Err(msg) => if blank(self.name@) {
                    msg@ == "manifest: empty name"@
                } else {
                    blank(program_of(*self)) && msg@ == "manifest: empty program"@
                },
            },
    {
        broadcast use vstd::string::group_string_axioms;
        if is_blank(self.name.as_str()) {
            return Err("manifest: empty name".to_string());
        }
        match &self.kind {
            PluginKind::Command { program, .. } => {
                if is_blank(program.as_str()) {
                    Err("manifest: empty program".to_string())
                } else {
                    Ok(())
                }
            },
        }
    }
}

impl Reply {
    /// How the reply reads in a log: `ready`, `done`, or `error: ` and the message.
    pub fn to_text(&self) -> (t: String)
        ensures
            t@ == match *self {
                Reply::Ready => "ready"@,
                Reply::Done => "done"@,
                Reply::Error { message } => "error: "@ + message@,
            },
    {
        broadcast use vstd::string::group_string_axioms;
        match self {
            Reply::Ready => "ready".to_string(),
            Reply::Done => "done".to_string(),
            Reply::Error { message } => {
                let mut t = "error: ".to_string();
                t.append(message.as_str());
                t
            },
        }
    }
}

/// What the handshake yields for the plugin's first reply: `ready` starts the
/// plugin, an error reply is the plugin's error, `done` breaks the protocol.
pub fn init_outcome(reply: Reply) -> (r: Result<(), HostError>)
    ensures
        match reply {
            Reply::Ready => r == Ok::<(), HostError>(()),
            Reply::Error { message } => r == Err::<(), HostError>(HostError::Plugin(message)),
            Reply::Done => r matches Err(HostError::Protocol(m)) && m@ == "unexpected done on init"@,
        },
{
    broadcast use vstd::string::group_string_axioms;
    match reply {
        Reply::Ready => Ok(()),
        Reply::Error { message } => Err(HostError::Plugin(message)),
        Reply::Done => Err(HostError::Protocol("unexpected done on init".to_string())),
    }
}

/// What a reply to a render request yields: `done` means the output file can
/// be read, an error reply is the plugin's error, `ready` breaks the protocol.
pub fn render_outcome(reply: Reply) -> (r: Result<(), HostError>)
    ensures
        match reply {
            Reply::Done => r == Ok::<(), HostError>(()),
            Reply::Error { message } => r == Err::<(), HostError>(HostError::Plugin(message)),
            Reply::Ready => r matches Err(HostError::Protocol(m)) && m@ == "unexpected ready"@,
        },
{
    broadcast use vstd::string::group_string_axioms;
    match reply {
        Reply::Done => Ok(()),
        Reply::Error { message } => Err(HostError::Plugin(message)),
        Reply::Ready => Err(HostError::Protocol("unexpected ready".to_string())),
    }
}

/// Bytes in an RGBA8 frame of `width * height` pixels.
pub fn rgba_len(width: u32, height: u32) -> (n: usize)
    requires
        width as int * height as int * 4 <= usize::MAX,
    ensures
        n == width as int * height as int * 4,
{
    assert(width as int * height as int * 4 <= usize::MAX);
    (width as usize) * (height as usize) * 4
}

/// A frame buffer of `len` bytes where `expect` are needed: a mismatch is a
/// protocol error `"{what} size: {len} != {expect}"`.
pub fn check_frame_size(what: &str, len: usize, expect: usize) -> (r: Result<(), HostError>)
    ensures
        len == expect ==> r == Ok::<(), HostError>(()),
        len != expect ==> (r matches Err(HostError::Protocol(m)) && m@ == what@ + " size: "@
            + decimal_spec(len as nat) + " != "@ + decimal_spec(expect as nat)),
{
    broadcast use vstd::string::group_string_axioms;
    if len == expect {
        return Ok(());
    }
    let mut m = what.to_string();
    m.append(" size: ");
    m.append(decimal_text(len as u64).as_str());
    m.append(" != ");
    m.append(decimal_text(expect as u64).as_str());
    Err(HostError::Protocol(m))
}

// ---------------------------------------------------------------------------
// Installing
// ---------------------------------------------------------------------------

/// Characters allowed in an installed plugin's directory name: ASCII
/// letters and digits, `-` and `_`.
pub open spec fn name_char_allowed(c: char) -> bool {
    ||| 'a' <= c <= 'z'
    ||| 'A' <= c <= 'Z'
    ||| '0' <= c <= '9'
    ||| c == '-'
    ||| c == '_'
}

/// A name is safe when it is non-empty and made of allowed characters only.
pub open spec fn safe_name(s: Seq<char>) -> bool {
    s.len() > 0 && forall|i: int| 0 <= i < s.len() ==> name_char_allowed(#[trigger] s[i])
}

/// The directory name to install a plugin under: its name, which must be
/// non-empty and hold only ASCII letters and digits, `-` and `_`.
pub fn install_name(manifest: &Manifest) -> (r: Result<String, HostError>)
    ensures
        safe_name(manifest.name@) ==> (r matches Ok(n) && n@ == manifest.name@),
        !safe_name(manifest.name@) ==> (r matches Err(HostError::Protocol(m)) && m@
            == "unsafe plugin name"@),
{
    broadcast use vstd::string::group_string_axioms;
    let v = chars_of(manifest.name.as_str());
    let n = v.len();
    let mut i: usize = 0;
    while i < n
        invariant
            n == v@.len(),
            v@ == manifest.name@,
            i <= n,
            forall|j: int| 0 <= j < i ==> name_char_allowed(#[trigger] v@[j]),
        decreases n - i,
    {
        let c = v[i];
        if !(('a' <= c && c <= 'z') || ('A' <= c && c <= 'Z') || ('0' <= c && c <= '9') || c == '-' || c
            == '_') {
            return Err(HostError::Protocol("unsafe plugin name".to_string()));
        }
        i = i + 1;
    }
    if n == 0 {
        return Err(HostError::Protocol("unsafe plugin name".to_string()));
    }
    Ok(manifest.name.clone())
}

/// The file that carries the input of request `seq` of process `pid`.
pub open spec fn frame_in_name(pid: u32, seq: u64) -> Seq<char> {
    "pool-in-"@ + decimal_spec(pid as nat) + "-"@ + decimal_spec(seq as nat) + ".rgba"@
}

/// The file that carries the output of request `seq` of process `pid`.
pub open spec fn frame_out_name(pid: u32, seq: u64) -> Seq<char> {
    "pool-out-"@ + decimal_spec(pid as nat) + "-"@ + decimal_spec(seq as nat) + ".rgba"@
}

/// Names of the files that carry one frame to a plugin and back: for process
/// `pid` and request `seq`, `pool-in-{pid}-{seq}.rgba` and
/// `pool-out-{pid}-{seq}.rgba`.
pub fn frame_file_names(pid: u32, seq: u64) -> (names: (String, String))
    ensures
        names.0@ == frame_in_name(pid, seq),
        names.1@ == frame_out_name(pid, seq),
{
    let p = decimal_text(pid as u64);
    let q = decimal_text(seq);
    let mut a = joined("pool-in-", p.as_str());
    a.append("-");
    a.append(q.as_str());
    a.append(".rgba");
    let mut b = joined("pool-out-", p.as_str());
    b.append("-");
    b.append(q.as_str());
    b.append(".rgba");
    (a, b)
}

/// A request's input and output files differ, and different requests of one
/// process use different files.
pub proof fn lemma_frame_files_distinct(pid: u32, a: u64, b: u64)
    ensures
        frame_in_name(pid, a) != frame_out_name(pid, b),
        a != b ==> frame_in_name(pid, a) != frame_in_name(pid, b),
        a != b ==> frame_out_name(pid, a) != frame_out_name(pid, b),
{
    reveal_strlit("pool-in-");
    reveal_strlit("pool-out-");
    reveal_strlit("-");
    reveal_strlit(".rgba");
    assert(frame_in_name(pid, a)[5] == 'i');
    assert(frame_out_name(pid, b)[5] == 'o');
    if a != b {
        lemma_decimal_value(a as nat);
        lemma_decimal_value(b as nat);
        let p = decimal_spec(pid as nat);
        let da = decimal_spec(a as nat);
        let db = decimal_spec(b as nat);
        let ia = frame_in_name(pid, a);
        let ib = frame_in_name(pid, b);
        if ia == ib {
            let lo: int = 8 + p.len() as int + 1;
            assert(da =~= ia.subrange(lo, ia.len() - 5));
            assert(db =~= ib.subrange(lo, ib.len() - 5));
        }
        let oa = frame_out_name(pid, a);
        let ob = frame_out_name(pid, b);
        if oa == ob {
            let lo: int = 9 + p.len() as int + 1;
            assert(da =~= oa.subrange(lo, oa.len() - 5));
            assert(db =~= ob.subrange(lo, ob.len() - 5));
        }
    }
}

/// Where an unpacked plugin archive keeps its manifest file (named
/// `manifest_file`): `top` when the archive's top directory holds it, else
/// the one subdirectory holding it; with none or several such subdirectories
/// the archive is refused.
pub fn plugin_root(top: Option<String>, subdirs: Vec<String>, manifest_file: &str) -> (r: Result<String, String>)
    ensures
        match top {
            Some(t) => r == Ok::<String, String>(t),
            None => if subdirs@.len() == 1 {
                r == Ok::<String, String>(subdirs@[0])
            } else {
                r matches Err(m) && m@ == "zip: "@ + manifest_file@ + " が見つからない（直下か単一フォルダに配置）"@
            },
        },
{
    match top {
        Some(t) => Ok(t),
        None => {
            let mut subdirs = subdirs;
            if subdirs.len() == 1 {
                if let Some(d) = subdirs.pop() {
                    return Ok(d);
                }
            }
            let mut m = joined("zip: ", manifest_file);
            m.append(" が見つからない（直下か単一フォルダに配置）");
            Err(m)
        },
    }
}

} // verus!
