//! The plain values behind the C interface: its enumerations, the status
//! records it hands out (no status means success), and the session and run
//! option records its setters fill.

use vstd::prelude::*;
use crate::error::{PmmlError, error_text};
use crate::strings::{chars_of, string_from};
use crate::textmap::TextMap;

verus! {

/// Graph optimisation level requested through the C interface.
#[derive(Clone, Copy, Debug, PartialEq, Eq, Structural)]
pub enum PmmlGraphOptimizationLevel {
    DisableAll,
    EnableBasic,
    EnableExtended,
    EnableAll,
}

/// Log level requested through the C interface.
#[derive(Clone, Copy, Debug, PartialEq, Eq, Structural)]
pub enum PmmlLogLevel {
    Verbose,
    Info,
    Warning,
    Error,
    Fatal,
}

/// Error codes of the C interface.
#[derive(Clone, Copy, Debug, PartialEq, Eq, Structural)]
pub enum PmmlErrorCode {
    /// No error.
    Success,
    InvalidArgument,
    Io,
    Parse,
    UnsupportedMarkup,
    InvalidValue,
    Validation,
    Oom,
    Unknown,
}

impl PmmlErrorCode {
    /// The number the C header gives this code.
    pub fn code(self) -> (r: i32)
        ensures
            r == error_code_number(self),
    {
        match self {
            PmmlErrorCode::Success => 0,
            PmmlErrorCode::InvalidArgument => 1,
            PmmlErrorCode::Io => 2,
            PmmlErrorCode::Parse => 3,
            PmmlErrorCode::UnsupportedMarkup => 4,
            PmmlErrorCode::InvalidValue => 5,
            PmmlErrorCode::Validation => 6,
            PmmlErrorCode::Oom => 7,
            PmmlErrorCode::Unknown => 8,
        }
    }
}

/// The number the C header gives error code `c`.
pub open spec fn error_code_number(c: PmmlErrorCode) -> i32 {
    match c {
        PmmlErrorCode::Success => 0,
        PmmlErrorCode::InvalidArgument => 1,
        PmmlErrorCode::Io => 2,
        PmmlErrorCode::Parse => 3,
        PmmlErrorCode::UnsupportedMarkup => 4,
        PmmlErrorCode::InvalidValue => 5,
        PmmlErrorCode::Validation => 6,
        PmmlErrorCode::Oom => 7,
        PmmlErrorCode::Unknown => 8,
    }
}

/// The code the C interface reports for error `e`.
pub open spec fn error_code_of(e: PmmlError) -> PmmlErrorCode {
    match e {
        PmmlError::Io(_) => PmmlErrorCode::Io,
        PmmlError::ParseError { .. } => PmmlErrorCode::Parse,
        PmmlError::UnsupportedMarkup(_) => PmmlErrorCode::UnsupportedMarkup,
        PmmlError::InvalidValue(_) => PmmlErrorCode::InvalidValue,
        PmmlError::TypeError(_) => PmmlErrorCode::InvalidValue,
        PmmlError::ValidationError(_) => PmmlErrorCode::Validation,
        PmmlError::ArithmeticOverflow(_) => PmmlErrorCode::InvalidValue,
        PmmlError::MissingField(_) => PmmlErrorCode::InvalidValue,
        PmmlError::Other(_) => PmmlErrorCode::Unknown,
    }
}

impl<'a> From<&'a PmmlError> for PmmlErrorCode {
    fn from(e: &'a PmmlError) -> (r: PmmlErrorCode) {
        match e {
            PmmlError::Io(_) => PmmlErrorCode::Io,
            PmmlError::ParseError { .. } => PmmlErrorCode::Parse,
            PmmlError::UnsupportedMarkup(_) => PmmlErrorCode::UnsupportedMarkup,
            PmmlError::InvalidValue(_) => PmmlErrorCode::InvalidValue,
            PmmlError::TypeError(_) => PmmlErrorCode::InvalidValue,
            PmmlError::ValidationError(_) => PmmlErrorCode::Validation,
            PmmlError::ArithmeticOverflow(_) => PmmlErrorCode::InvalidValue,
            PmmlError::MissingField(_) => PmmlErrorCode::InvalidValue,
            PmmlError::Other(_) => PmmlErrorCode::Unknown,
        }
    }
}

impl<'a> vstd::std_specs::convert::FromSpecImpl<&'a PmmlError> for PmmlErrorCode {
    open spec fn obeys_from_spec() -> bool {
        true
    }

    open spec fn from_spec(e: &'a PmmlError) -> PmmlErrorCode {
        error_code_of(*e)
    }
}

/// Tag of a value crossing the C interface.
#[derive(Clone, Copy, Debug, PartialEq, Eq, Structural)]
pub enum PmmlValueTag {
    Missing,
    Continuous,
    Discrete,
}

/// Opaque environment handle of the C interface.
pub struct PmmlEnv {
    _private: [u8; 0],
}

/// Opaque session handle of the C interface.
pub struct PmmlSession {
    _private: [u8; 0],
}

/// Opaque session-options handle of the C interface.
pub struct PmmlSessionOptions {
    _private: [u8; 0],
}

/// Opaque run-options handle of the C interface.
pub struct PmmlRunOptions {
    _private: [u8; 0],
}

/// Opaque input/output binding handle of the C interface.
pub struct PmmlIoBinding {
    _private: [u8; 0],
}

/// Opaque status handle of the C interface.
pub struct PmmlStatus {
    _private: [u8; 0],
}

/// Opaque Arrow C data interface array.
pub struct ArrowArray {
    _private: [u8; 0],
}

/// Opaque Arrow C data interface schema.
pub struct ArrowSchema {
    _private: [u8; 0],
}

// ---------- status ----------

/// The message stored in a status for text `m`: a C string cannot hold a
/// NUL character, so such a text is replaced by a fixed message.
pub open spec fn status_text(m: Seq<char>) -> Seq<char> {
    if m.contains('\0') {
        "invalid status message"@
    } else {
        m
    }
}

/// The record behind a status handle: its code and its message.
#[derive(Debug)]
pub struct StatusHandle {
    pub code: PmmlErrorCode,
    pub message: String,
}

/// Whether `m` holds a NUL character.
fn has_nul(m: &str) -> (r: bool)
    ensures
        r == m@.contains('\0'),
{
    let cs = chars_of(m);
    let mut i: usize = 0;
    while i < cs.len()
        invariant
            cs@ == m@,
            i <= cs@.len(),
            forall|j: int| 0 <= j < i ==> cs@[j] != '\0',
        decreases cs.len() - i,
    {
        if cs[i] == '\0' {
            return true;
        }
        i = i + 1;
    }
    false
}

/// A status with `code` and message `msg`.
pub fn make_status(code: PmmlErrorCode, msg: String) -> (s: StatusHandle)
    ensures
        s.code == code,
        s.message@ == status_text(msg@),
{
    if has_nul(msg.as_str()) {
        StatusHandle { code, message: string_from("invalid status message") }
    } else {
        StatusHandle { code, message: msg }
    }
}

/// The status reporting error `e`: its code and its rendering.
pub fn status_from_error(e: PmmlError) -> (s: StatusHandle)
    ensures
        s.code == error_code_of(e),
        s.message@ == status_text(error_text(e)),
{
    let code = PmmlErrorCode::from(&e);
    make_status(code, e.message())
}

/// The status reporting an invalid argument, with message `msg`.
pub fn status_invalid_arg(msg: &str) -> (s: StatusHandle)
    ensures
        s.code == PmmlErrorCode::InvalidArgument,
        s.message@ == status_text(msg@),
{
    make_status(PmmlErrorCode::InvalidArgument, string_from(msg))
}

/// The code of a status; no status means success.
pub fn status_code(status: Option<&StatusHandle>) -> (c: PmmlErrorCode)
    ensures
        c == match status {
            Some(s) => s.code,
            None => PmmlErrorCode::Success,
        },
{
    match status {
        Some(s) => s.code,
        None => PmmlErrorCode::Success,
    }
}

/// The message of a status; no status has none.
pub fn status_message(status: Option<&StatusHandle>) -> (m: Option<&String>)
    ensures
        m == match status {
            Some(s) => Some(&s.message),
            None => None,
        },
{
    match status {
        Some(s) => Some(&s.message),
        None => None,
    }
}

/// Whether the function table of version `version` of the C interface is
/// available: only version 1 is.
pub fn api_version_available(version: u32) -> (r: bool)
    ensures
        r == (version == 1),
{
    version == 1
}

// ---------- options ----------

/// The graph optimisation levels of a session.
#[derive(Clone, Copy, Debug, PartialEq, Eq, Structural)]
pub enum GraphOptimizationLevel {
    DisableAll,
    EnableBasic,
    EnableExtended,
    EnableAll,
}

/// The session level that a level of the C interface stands for.
pub open spec fn session_level(l: PmmlGraphOptimizationLevel) -> GraphOptimizationLevel {
    match l {
        PmmlGraphOptimizationLevel::DisableAll => GraphOptimizationLevel::DisableAll,
        PmmlGraphOptimizationLevel::EnableBasic => GraphOptimizationLevel::EnableBasic,
        PmmlGraphOptimizationLevel::EnableExtended => GraphOptimizationLevel::EnableExtended,
        PmmlGraphOptimizationLevel::EnableAll => GraphOptimizationLevel::EnableAll,
    }
}

/// The record behind a session-options handle.
pub struct SessionOptionsHandle {
    pub graph_level: PmmlGraphOptimizationLevel,
    pub intra_threads: i32,
    pub inter_threads: i32,
    pub log_level: PmmlLogLevel,
    pub configs: TextMap,
    pub providers: Vec<(String, TextMap)>,
}

impl SessionOptionsHandle {
    /// The graph optimisation level the session is created with.
    pub fn to_rust(&self) -> (l: GraphOptimizationLevel)
        ensures
            l == session_level(self.graph_level),
    {
        match self.graph_level {
            PmmlGraphOptimizationLevel::DisableAll => GraphOptimizationLevel::DisableAll,
            PmmlGraphOptimizationLevel::EnableBasic => GraphOptimizationLevel::EnableBasic,
            PmmlGraphOptimizationLevel::EnableExtended => GraphOptimizationLevel::EnableExtended,
            PmmlGraphOptimizationLevel::EnableAll => GraphOptimizationLevel::EnableAll,
        }
    }

    /// Add a configuration entry, replacing the value of an existing key.
    pub fn add_config_entry(&mut self, key: String, value: String)
        ensures
            final(self).configs@ == old(self).configs@.insert(key@, value@),
            final(self).graph_level == old(self).graph_level,
            final(self).intra_threads == old(self).intra_threads,
            final(self).inter_threads == old(self).inter_threads,
            final(self).log_level == old(self).log_level,
            final(self).providers@ == old(self).providers@,
    {
        self.configs.insert(key, value);
    }

    /// Append an execution provider named `name` with the options given by
    /// `keys` and `values`, position by position (a later key replaces an
    /// earlier equal one).
    pub fn append_execution_provider(&mut self, name: String, keys: &Vec<String>, values: &Vec<String>)
        requires
            keys@.len() == values@.len(),
        ensures
            final(self).providers@.len() == old(self).providers@.len() + 1,
            final(self).providers@.subrange(0, old(self).providers@.len() as int) == old(
                self,
            ).providers@,
            final(self).providers@.last().0@ == name@,
            final(self).providers@.last().1@ == pairs_map(keys@, values@, keys@.len() as int),
            final(self).configs@ == old(self).configs@,
            final(self).graph_level == old(self).graph_level,
            final(self).intra_threads == old(self).intra_threads,
            final(self).inter_threads == old(self).inter_threads,
            final(self).log_level == old(self).log_level,
    {
        let mut map = TextMap::new();
        let mut i: usize = 0;
        while i < keys.len()
            invariant
                i <= keys@.len(),
                keys@.len() == values@.len(),
                map@ == pairs_map(keys@, values@, i as int),
            decreases keys@.len() - i,
        {
            map.insert(keys[i].clone(), values[i].clone());
            i = i + 1;
        }
        let ghost before = self.providers@;
        self.providers.push((name, map));
        assert(self.providers@.subrange(0, before.len() as int) =~= before);
    }
}

/// The map that the first `n` key/value pairs give, a later key replacing an
/// earlier equal one.
pub open spec fn pairs_map(keys: Seq<String>, values: Seq<String>, n: int) -> Map<Seq<char>, Seq<char>>
    decreases n,
{
    if n <= 0 {
        Map::empty()
    } else {
        pairs_map(keys, values, n - 1).insert(keys[n - 1]@, values[n - 1]@)
    }
}

impl Default for SessionOptionsHandle {
    /// Basic graph optimisation, default thread counts, warnings logged, no
    /// configuration, and the CPU provider alone.
    fn default() -> (h: SessionOptionsHandle)
        ensures
            h.graph_level == PmmlGraphOptimizationLevel::EnableBasic,
            h.intra_threads == 0,
            h.inter_threads == 0,
            h.log_level == PmmlLogLevel::Warning,
            h.configs@ == Map::<Seq<char>, Seq<char>>::empty(),
            h.providers@.len() == 1,
            h.providers@[0].0@ == "CPU"@,
            h.providers@[0].1@ == Map::<Seq<char>, Seq<char>>::empty(),
    {
        let mut providers: Vec<(String, TextMap)> = Vec::new();
        providers.push((string_from("CPU"), TextMap::new()));
        SessionOptionsHandle {
            graph_level: PmmlGraphOptimizationLevel::EnableBasic,
            intra_threads: 0,
            inter_threads: 0,
            log_level: PmmlLogLevel::Warning,
            configs: TextMap::new(),
            providers,
        }
    }
}

/// The record behind a run-options handle.
pub struct RunOptionsHandle {
    pub tag: Option<String>,
    pub log_level: PmmlLogLevel,
}

impl RunOptionsHandle {
    /// Run options with no tag, logging warnings.
    pub fn new() -> (h: RunOptionsHandle)
        ensures
            h.tag is None,
            h.log_level == PmmlLogLevel::Warning,
    {
        RunOptionsHandle { tag: None, log_level: PmmlLogLevel::Warning }
    }
}

} // verus!
