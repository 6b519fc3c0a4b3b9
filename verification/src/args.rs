//! The command-line grammar: `-l/--log-level`, `-s/--scene-spec`,
//! `-W/--width`, `-H/--height`, `--debug-gpu`, `-h/--help` and
//! `-V/--version`, read left to right.

use vstd::prelude::*;

verus! {

/// How much the program logs.
#[derive(Clone, Copy, Debug, PartialEq, Eq, Structural)]
pub enum LogLevel {
    Error,
    Warn,
    Info,
    Debug,
    Trace,
}

/// The options of one command line, with defaults filled in.
pub struct Args {
    pub log_level: LogLevel,
    pub scene_spec_path: String,
    pub width: u32,
    pub height: u32,
    pub debug_gpu: bool,
}

/// Why a command line gives no `Args`.
#[derive(Clone, Copy, Debug, PartialEq, Eq, Structural)]
pub enum ArgsError {
    /// Help was asked for.
    Help,
    /// The version was asked for.
    Version,
    /// The command line breaks the grammar: an unknown option, a missing,
    /// repeated or malformed value, a stray argument, or no scene.
    Usage,
}

/// The options of the grammar.
#[derive(Clone, Copy, Debug, PartialEq, Eq, Structural)]
pub enum Opt {
    LogLevel,
    SceneSpec,
    Width,
    Height,
    DebugGpu,
    Help,
    Version,
}

/// The mathematical value of `Args`.
pub struct ArgsView {
    pub log_level: LogLevel,
    pub scene_spec_path: Seq<char>,
    pub width: u32,
    pub height: u32,
    pub debug_gpu: bool,
}

impl Args {
    pub open spec fn view_args(&self) -> ArgsView {
        ArgsView {
            log_level: self.log_level,
            scene_spec_path: self.scene_spec_path@,
            width: self.width,
            height: self.height,
            debug_gpu: self.debug_gpu,
        }
    }
}

/// The option named by a long flag (the text after `--`).
pub open spec fn long_opt(name: Seq<char>) -> Option<Opt> {
    if name == "log-level"@ {
        Some(Opt::LogLevel)
    } else if name == "scene-spec"@ {
        Some(Opt::SceneSpec)
    } else if name == "width"@ {
        Some(Opt::Width)
    } else if name == "height"@ {
        Some(Opt::Height)
    } else if name == "debug-gpu"@ {
        Some(Opt::DebugGpu)
    } else if name == "help"@ {
        Some(Opt::Help)
    } else if name == "version"@ {
        Some(Opt::Version)
    } else {
        None
    }
}

/// The option named by a short flag.
pub open spec fn short_opt(c: char) -> Option<Opt> {
    if c == 'l' {
        Some(Opt::LogLevel)
    } else if c == 's' {
        Some(Opt::SceneSpec)
    } else if c == 'W' {
        Some(Opt::Width)
    } else if c == 'H' {
        Some(Opt::Height)
    } else if c == 'h' {
        Some(Opt::Help)
    } else if c == 'V' {
        Some(Opt::Version)
    } else {
        None
    }
}

/// The option is followed by a value.
pub open spec fn takes_value(o: Opt) -> bool {
    o == Opt::LogLevel || o == Opt::SceneSpec || o == Opt::Width || o == Opt::Height
}

/// `s` equals the lower-case ASCII word `word`, ignoring ASCII case.
pub open spec fn eq_ignore_case(s: Seq<char>, word: Seq<char>) -> bool {
    &&& s.len() == word.len()
    &&& forall|i: int| 0 <= i < s.len() ==> #[trigger] s[i] == word[i] || s[i] as u32 + 32 == word[i] as u32
}

/// The level named by `s`, in any ASCII case.
pub open spec fn level_named(s: Seq<char>) -> Option<LogLevel> {
    if eq_ignore_case(s, "error"@) {
        Some(LogLevel::Error)
    } else if eq_ignore_case(s, "warn"@) {
        Some(LogLevel::Warn)
    } else if eq_ignore_case(s, "info"@) {
        Some(LogLevel::Info)
    } else if eq_ignore_case(s, "debug"@) {
        Some(LogLevel::Debug)
    } else if eq_ignore_case(s, "trace"@) {
        Some(LogLevel::Trace)
    } else {
        None
    }
}

/// `c` is an ASCII decimal digit.
pub open spec fn is_digit(c: char) -> bool {
    '0' <= c && c <= '9'
}

/// The value of a string of decimal digits.
pub open spec fn digits_value(s: Seq<char>) -> nat
    decreases s.len(),
{
    if s.len() == 0 {
        0
    } else {
        digits_value(s.drop_last()) * 10 + (s.last() as nat - '0' as nat) as nat
    }
}

/// A non-empty string of decimal digits.
pub open spec fn all_digits(s: Seq<char>) -> bool {
    s.len() > 0 && forall|i: int| 0 <= i < s.len() ==> is_digit(#[trigger] s[i])
}

/// The `u32` written as an optional sign and decimal digits, where a minus
/// sign is only allowed on zero.
pub open spec fn u32_named(s: Seq<char>) -> Option<u32> {
    let signed = s.len() > 0 && (s[0] == '+' || s[0] == '-');
    let digits = if signed { s.drop_first() } else { s };
    if !all_digits(digits) {
        None
    } else if signed && s[0] == '-' {
        if digits_value(digits) == 0 {
            Some(0u32)
        } else {
            None
        }
    } else if digits_value(digits) <= u32::MAX {
        Some(digits_value(digits) as u32)
    } else {
        None
    }
}

/// The options read so far.
pub struct Draft {
    pub log_level: Option<LogLevel>,
    pub scene_spec_path: Option<Seq<char>>,
    pub width: Option<u32>,
    pub height: Option<u32>,
    pub debug_gpu: bool,
}

/// Where the reading of a command line stands: the options read so far, the
/// option whose value is due next, and whether `--` has been read.
pub struct Scan {
    pub draft: Draft,
    pub awaiting: Option<Opt>,
    pub trailing: bool,
}

/// Nothing read yet.
pub open spec fn scan_start() -> Scan {
    Scan {
        draft: Draft { log_level: None, scene_spec_path: None, width: None, height: None, debug_gpu: false },
        awaiting: None,
        trailing: false,
    }
}

/// The draft with value `v` given to option `o`, or `None` when `o` already
/// has a value or `v` is not a value of `o`.
pub open spec fn with_value(d: Draft, o: Opt, v: Seq<char>) -> Option<Draft> {
    match o {
        Opt::LogLevel => if d.log_level is None && level_named(v) is Some {
            Some(Draft { log_level: level_named(v), ..d })
        } else {
            None
        },
        Opt::SceneSpec => if d.scene_spec_path is None {
            Some(Draft { scene_spec_path: Some(v), ..d })
        } else {
            None
        },
        Opt::Width => if d.width is None && u32_named(v) is Some {
            Some(Draft { width: u32_named(v), ..d })
        } else {
            None
        },
        Opt::Height => if d.height is None && u32_named(v) is Some {
            Some(Draft { height: u32_named(v), ..d })
        } else {
            None
        },
        _ => None,
    }
}

/// The reading after value `v` is given to option `o`.
pub open spec fn give_value(s: Scan, o: Opt, v: Seq<char>) -> Result<Scan, ArgsError> {
    match with_value(s.draft, o, v) {
        Some(d) => Ok(Scan { draft: d, awaiting: None, trailing: s.trailing }),
        None => Err(ArgsError::Usage),
    }
}

/// The reading after flag `o`, which takes no value, is given.
pub open spec fn give_flag(s: Scan, o: Opt) -> Result<Scan, ArgsError> {
    match o {
        Opt::Help => Err(ArgsError::Help),
        Opt::Version => Err(ArgsError::Version),
        Opt::DebugGpu => if s.draft.debug_gpu {
            Err(ArgsError::Usage)
        } else {
            Ok(Scan { draft: Draft { debug_gpu: true, ..s.draft }, ..s })
        },
        _ => Err(ArgsError::Usage),
    }
}

/// The index of the first `=` in `s`, or the length of `s` when it has none.
pub open spec fn first_eq(s: Seq<char>) -> int
    decreases s.len(),
{
    if s.len() == 0 {
        0
    } else if s[0] == '=' {
        0
    } else {
        1 + first_eq(s.drop_first())
    }
}

/// The reading after the long flag `--body`: the flag's name runs to the
/// first `=`, and what follows the `=` is an attached value.
pub open spec fn read_long(s: Scan, body: Seq<char>) -> Result<Scan, ArgsError> {
    let k = first_eq(body);
    let name = body.take(k);
    match long_opt(name) {
        None => Err(ArgsError::Usage),
        Some(o) => if takes_value(o) {
            if k < body.len() {
                give_value(s, o, body.skip(k + 1))
            } else {
                Ok(Scan { awaiting: Some(o), ..s })
            }
        } else if k < body.len() {
            Err(ArgsError::Usage)
        } else {
            give_flag(s, o)
        },
    }
}

/// The reading after the short flag `-c` followed by `rest`: the rest, less
/// one leading `=`, is an attached value.
pub open spec fn read_short(s: Scan, c: char, rest: Seq<char>) -> Result<Scan, ArgsError> {
    match short_opt(c) {
        None => Err(ArgsError::Usage),
        Some(o) => if takes_value(o) {
            if rest.len() == 0 {
                Ok(Scan { awaiting: Some(o), ..s })
            } else if rest[0] == '=' {
                give_value(s, o, rest.drop_first())
            } else {
                give_value(s, o, rest)
            }
        } else {
            give_flag(s, o)
        },
    }
}

/// `t` looks like a flag: a `-` followed by something.
pub open spec fn flag_like(t: Seq<char>) -> bool {
    t.len() >= 2 && t[0] == '-'
}

/// The reading after one more argument `t`.
pub open spec fn read_arg(s: Scan, t: Seq<char>) -> Result<Scan, ArgsError> {
    if s.trailing {
        Err(ArgsError::Usage)
    } else if s.awaiting is Some {
        if flag_like(t) {
            Err(ArgsError::Usage)
        } else {
            give_value(s, s.awaiting->0, t)
        }
    } else if t == "--"@ {
        Ok(Scan { trailing: true, ..s })
    } else if flag_like(t) && t[1] == '-' {
        read_long(s, t.skip(2))
    } else if flag_like(t) {
        read_short(s, t[1], t.skip(2))
    } else {
        Err(ArgsError::Usage)
    }
}

/// The reading of a sequence of arguments, left to right, stopping at the
/// first that fails.
pub open spec fn read_args(ts: Seq<Seq<char>>) -> Result<Scan, ArgsError>
    decreases ts.len(),
{
    if ts.len() == 0 {
        Ok(scan_start())
    } else {
        match read_args(ts.drop_last()) {
            Ok(s) => read_arg(s, ts.last()),
            Err(e) => Err(e),
        }
    }
}

/// The options once every argument is read: a value still due or a missing
/// scene fails, and absent options take their defaults.
pub open spec fn finish(s: Scan) -> Result<ArgsView, ArgsError> {
    if s.awaiting is Some {
        Err(ArgsError::Usage)
    } else {
        match s.draft.scene_spec_path {
            None => Err(ArgsError::Usage),
            Some(path) => Ok(
                ArgsView {
                    log_level: match s.draft.log_level {
                        Some(l) => l,
                        None => LogLevel::Info,
                    },
                    scene_spec_path: path,
                    width: match s.draft.width {
                        Some(w) => w,
                        None => 1920,
                    },
                    height: match s.draft.height {
                        Some(h) => h,
                        None => 1080,
                    },
                    debug_gpu: s.draft.debug_gpu,
                },
            ),
        }
    }
}

/// The arguments of a command line: all but the program name.
pub open spec fn arguments(argv: Seq<Seq<char>>) -> Seq<Seq<char>> {
    if argv.len() == 0 {
        seq![]
    } else {
        argv.drop_first()
    }
}

/// What a command line (program name first) gives.
pub open spec fn parse_args(argv: Seq<Seq<char>>) -> Result<ArgsView, ArgsError> {
    match read_args(arguments(argv)) {
        Ok(s) => finish(s),
        Err(e) => Err(e),
    }
}

/// `s` and `t` hold the same characters.
fn same_text(s: &str, t: &str) -> (b: bool)
    ensures
        b == (s@ == t@),
{
    let n = s.unicode_len();
    if n != t.unicode_len() {
        return false;
    }
    let mut i: usize = 0;
    while i < n
        invariant
            n == s@.len(),
            n == t@.len(),
            i <= n,
            forall|j: int| 0 <= j < i ==> s@[j] == t@[j],
        decreases n - i,
    {
        if s.get_char(i) != t.get_char(i) {
            return false;
        }
        i = i + 1;
    }
    assert(s@ =~= t@);
    true
}

/// `s` equals the lower-case word `word`, ignoring ASCII case.
fn same_word_ignoring_case(s: &str, word: &str) -> (b: bool)
    ensures
        b == eq_ignore_case(s@, word@),
{
    let n = s.unicode_len();
    if n != word.unicode_len() {
        return false;
    }
    let mut i: usize = 0;
    while i < n
        invariant
            n == s@.len(),
            n == word@.len(),
            i <= n,
            forall|j: int| 0 <= j < i ==> #[trigger] s@[j] == word@[j] || s@[j] as u32 + 32 == word@[j] as u32,
        decreases n - i,
    {
        let c = s.get_char(i);
        let w = word.get_char(i);
        if c != w && (c as u32) + 32 != (w as u32) {
            assert(!(s@[i as int] == word@[i as int] || s@[i as int] as u32 + 32 == word@[i as int] as u32));
            return false;
        }
        i = i + 1;
    }
    true
}

/// The option named by a long flag.
fn find_long_opt(name: &str) -> (o: Option<Opt>)
    ensures
        o == long_opt(name@),
{
    if same_text(name, "log-level") {
        Some(Opt::LogLevel)
    } else if same_text(name, "scene-spec") {
        Some(Opt::SceneSpec)
    } else if same_text(name, "width") {
        Some(Opt::Width)
    } else if same_text(name, "height") {
        Some(Opt::Height)
    } else if same_text(name, "debug-gpu") {
        Some(Opt::DebugGpu)
    } else if same_text(name, "help") {
        Some(Opt::Help)
    } else if same_text(name, "version") {
        Some(Opt::Version)
    } else {
        None
    }
}

/// The option named by a short flag.
fn find_short_opt(c: char) -> (o: Option<Opt>)
    ensures
        o == short_opt(c),
{
    if c == 'l' {
        Some(Opt::LogLevel)
    } else if c == 's' {
        Some(Opt::SceneSpec)
    } else if c == 'W' {
        Some(Opt::Width)
    } else if c == 'H' {
        Some(Opt::Height)
    } else if c == 'h' {
        Some(Opt::Help)
    } else if c == 'V' {
        Some(Opt::Version)
    } else {
        None
    }
}

fn opt_takes_value(o: Opt) -> (b: bool)
    ensures
        b == takes_value(o),
{
    match o {
        Opt::LogLevel | Opt::SceneSpec | Opt::Width | Opt::Height => true,
        _ => false,
    }
}

/// The level named by `s`, in any ASCII case.
pub fn parse_level(s: &str) -> (l: Option<LogLevel>)
    ensures
        l == level_named(s@),
{
    if same_word_ignoring_case(s, "error") {
        Some(LogLevel::Error)
    } else if same_word_ignoring_case(s, "warn") {
        Some(LogLevel::Warn)
    } else if same_word_ignoring_case(s, "info") {
        Some(LogLevel::Info)
    } else if same_word_ignoring_case(s, "debug") {
        Some(LogLevel::Debug)
    } else if same_word_ignoring_case(s, "trace") {
        Some(LogLevel::Trace)
    } else {
        None
    }
}

/// The `u32` written in `s`: an optional sign and decimal digits, a minus
/// sign only on zero.
pub fn parse_u32(s: &str) -> (v: Option<u32>)
    ensures
        v == u32_named(s@),
{
    let n = s.unicode_len();
    let signed = n > 0 && (s.get_char(0) == '+' || s.get_char(0) == '-');
    let negative = signed && s.get_char(0) == '-';
    let start: usize = if signed { 1 } else { 0 };
    let ghost digits = if signed { s@.drop_first() } else { s@ };
    assert(signed == (s@.len() > 0 && (s@[0] == '+' || s@[0] == '-')));
    assert(digits =~= s@.skip(start as int));
    if start >= n {
        return None;
    }
    let mut i: usize = start;
    let mut acc: u64 = 0;
    let mut over = false;
    while i < n
        invariant
            n == s@.len(),
            start <= i <= n,
            signed == (s@.len() > 0 && (s@[0] == '+' || s@[0] == '-')),
            negative == (signed && s@[0] == '-'),
            start == (if signed { 1usize } else { 0usize }),
            digits == (if signed { s@.drop_first() } else { s@ }),
            digits == s@.skip(start as int),
            forall|j: int| 0 <= j < i - start ==> is_digit(#[trigger] digits[j]),
            over ==> digits_value(digits.take(i - start)) > u32::MAX,
            !over ==> acc == digits_value(digits.take(i - start)) && acc <= u32::MAX,
        decreases n - i,
    {
        let c = s.get_char(i);
        assert(c == digits[i - start]);
        if !('0' <= c && c <= '9') {
            assert(!all_digits(digits));
            return None;
        }
        let d = (c as u32 - '0' as u32) as u64;
        assert(digits.take(i - start + 1).drop_last() =~= digits.take(i - start));
        assert(digits.take(i - start + 1).last() == c);
        if !over {
            if acc * 10 + d > 0xffff_ffff {
                over = true;
            } else {
                acc = acc * 10 + d;
            }
        }
        i = i + 1;
    }
    assert(digits.take(n - start) =~= digits);
    if negative {
        if !over && acc == 0 {
            Some(0)
        } else {
            None
        }
    } else if over {
        None
    } else {
        Some(acc as u32)
    }
}

/// The reading of a command line, as it goes.
struct Reading {
    log_level: Option<LogLevel>,
    scene_spec_path: Option<String>,
    width: Option<u32>,
    height: Option<u32>,
    debug_gpu: bool,
    awaiting: Option<Opt>,
    trailing: bool,
}

impl Reading {
    spec fn view_scan(&self) -> Scan {
        Scan {
            draft: Draft {
                log_level: self.log_level,
                scene_spec_path: match self.scene_spec_path {
                    Some(p) => Some(p@),
                    None => None,
                },
                width: self.width,
                height: self.height,
                debug_gpu: self.debug_gpu,
            },
            awaiting: self.awaiting,
            trailing: self.trailing,
        }
    }
}

/// `res` and the reading `after` are what `expected` says a step gives.
pub open spec fn step_gives(res: Result<(), ArgsError>, after: Scan, expected: Result<Scan, ArgsError>) -> bool {
    match expected {
        Ok(s) => res is Ok && after == s,
        Err(e) => res == Err::<(), ArgsError>(e),
    }
}

fn take_value(r: &mut Reading, o: Opt, v: &str) -> (res: Result<(), ArgsError>)
    ensures
        step_gives(res, final(r).view_scan(), give_value(old(r).view_scan(), o, v@)),
{
    match o {
        Opt::LogLevel => {
            if r.log_level.is_some() {
                return Err(ArgsError::Usage);
            }
            match parse_level(v) {
                Some(l) => {
                    r.log_level = Some(l);
                },
                None => {
                    return Err(ArgsError::Usage);
                },
            }
        },
        Opt::SceneSpec => {
            if r.scene_spec_path.is_some() {
                return Err(ArgsError::Usage);
            }
            r.scene_spec_path = Some(String::from_str(v));
        },
        Opt::Width => {
            if r.width.is_some() {
                return Err(ArgsError::Usage);
            }
            match parse_u32(v) {
                Some(w) => {
                    r.width = Some(w);
                },
                None => {
                    return Err(ArgsError::Usage);
                },
            }
        },
        Opt::Height => {
            if r.height.is_some() {
                return Err(ArgsError::Usage);
            }
            match parse_u32(v) {
                Some(h) => {
                    r.height = Some(h);
                },
                None => {
                    return Err(ArgsError::Usage);
                },
            }
        },
        _ => {
            return Err(ArgsError::Usage);
        },
    }
    r.awaiting = None;
    Ok(())
}

fn take_flag(r: &mut Reading, o: Opt) -> (res: Result<(), ArgsError>)
    ensures
        step_gives(res, final(r).view_scan(), give_flag(old(r).view_scan(), o)),
{
    match o {
        Opt::Help => Err(ArgsError::Help),
        Opt::Version => Err(ArgsError::Version),
        Opt::DebugGpu => {
            if r.debug_gpu {
                Err(ArgsError::Usage)
            } else {
                r.debug_gpu = true;
                Ok(())
            }
        },
        _ => Err(ArgsError::Usage),
    }
}

/// The first `=` is at `k` when nothing before `k` is one.
proof fn lemma_first_eq(s: Seq<char>, k: int)
    requires
        0 <= k <= s.len(),
        forall|j: int| 0 <= j < k ==> s[j] != '=',
        k == s.len() || s[k] == '=',
    ensures
        first_eq(s) == k,
    decreases s.len(),
{
    if s.len() > 0 && k > 0 {
        lemma_first_eq(s.drop_first(), k - 1);
    }
}

fn read_long_flag(r: &mut Reading, body: &str) -> (res: Result<(), ArgsError>)
    ensures
        step_gives(res, final(r).view_scan(), read_long(old(r).view_scan(), body@)),
{
    let n = body.unicode_len();
    let mut k: usize = 0;
    while k < n && body.get_char(k) != '='
        invariant
            n == body@.len(),
            k <= n,
            forall|j: int| 0 <= j < k ==> body@[j] != '=',
        decreases n - k,
    {
        k = k + 1;
    }
    proof {
        lemma_first_eq(body@, k as int);
    }
    let name = body.substring_char(0, k);
    match find_long_opt(name) {
        None => Err(ArgsError::Usage),
        Some(o) => {
            if opt_takes_value(o) {
                if k < n {
                    let v = body.substring_char(k + 1, n);
                    assert(v@ =~= body@.skip(k + 1));
                    take_value(r, o, v)
                } else {
                    r.awaiting = Some(o);
                    Ok(())
                }
            } else if k < n {
                Err(ArgsError::Usage)
            } else {
                take_flag(r, o)
            }
        },
    }
}

fn read_short_flag(r: &mut Reading, c: char, rest: &str) -> (res: Result<(), ArgsError>)
    ensures
        step_gives(res, final(r).view_scan(), read_short(old(r).view_scan(), c, rest@)),
{
    match find_short_opt(c) {
        None => Err(ArgsError::Usage),
        Some(o) => {
            if opt_takes_value(o) {
                let n = rest.unicode_len();
                if n == 0 {
                    r.awaiting = Some(o);
                    Ok(())
                } else if rest.get_char(0) == '=' {
                    let v = rest.substring_char(1, n);
                    assert(v@ =~= rest@.drop_first());
                    take_value(r, o, v)
                } else {
                    take_value(r, o, rest)
                }
            } else {
                take_flag(r, o)
            }
        },
    }
}

fn read_one(r: &mut Reading, t: &str) -> (res: Result<(), ArgsError>)
    ensures
        step_gives(res, final(r).view_scan(), read_arg(old(r).view_scan(), t@)),
{
    let n = t.unicode_len();
    let flag_like = n >= 2 && t.get_char(0) == '-';
    if r.trailing {
        Err(ArgsError::Usage)
    } else if let Some(o) = r.awaiting {
        if flag_like {
            Err(ArgsError::Usage)
        } else {
            take_value(r, o, t)
        }
    } else if same_text(t, "--") {
        r.trailing = true;
        Ok(())
    } else if flag_like && t.get_char(1) == '-' {
        let body = t.substring_char(2, n);
        read_long_flag(r, body)
    } else if flag_like {
        let c = t.get_char(1);
        let rest = t.substring_char(2, n);
        read_short_flag(r, c, rest)
    } else {
        Err(ArgsError::Usage)
    }
}

/// The view of each argument of a command line.
pub open spec fn argv_view(argv: Seq<String>) -> Seq<Seq<char>> {
    argv.map_values(|s: String| s@)
}

/// Once the reading fails, later arguments change nothing.
proof fn lemma_read_args_stops(ts: Seq<Seq<char>>, k: int)
    requires
        0 <= k <= ts.len(),
        read_args(ts.take(k)) is Err,
    ensures
        read_args(ts) == read_args(ts.take(k)),
    decreases ts.len() - k,
{
    if k < ts.len() {
        assert(ts.take(k + 1).drop_last() =~= ts.take(k));
        lemma_read_args_stops(ts, k + 1);
    } else {
        assert(ts.take(k) =~= ts);
    }
}

impl Args {
    /// Reads a command line (program name first) as the grammar says.
    pub fn parse_(argv: &Vec<String>) -> (r: Result<Args, ArgsError>)
        ensures
            match r {
                Ok(a) => parse_args(argv_view(argv@)) == Ok::<ArgsView, ArgsError>(a.view_args()),
                Err(e) => parse_args(argv_view(argv@)) == Err::<ArgsView, ArgsError>(e),
            },
    {
        let ghost av = argv_view(argv@);
        let ghost ts = arguments(av);
        let mut reading = Reading {
            log_level: None,
            scene_spec_path: None,
            width: None,
            height: None,
            debug_gpu: false,
            awaiting: None,
            trailing: false,
        };
        let mut i: usize = 1;
        assert(ts.take(0) =~= Seq::<Seq<char>>::empty());
        while i < argv.len()
            invariant
                av == argv_view(argv@),
                ts == arguments(av),
                1 <= i,
                argv.len() > 0 ==> i <= argv.len(),
                argv.len() > 0 ==> ts.len() == argv.len() - 1,
                argv.len() > 0 ==> read_args(ts.take(i - 1)) == Ok::<Scan, ArgsError>(reading.view_scan()),
                argv.len() == 0 ==> reading.view_scan() == scan_start(),
            decreases argv.len() - i,
        {
            let ghost before = reading.view_scan();
            assert(ts[i - 1] == argv@[i as int]@);
            assert(ts.take(i as int).drop_last() =~= ts.take(i - 1));
            match read_one(&mut reading, argv[i].as_str()) {
                Ok(()) => {},
                Err(e) => {
                    proof {
                        lemma_read_args_stops(ts, i as int);
                    }
                    return Err(e);
                },
            }
            i = i + 1;
        }
        if argv.len() > 0 {
            assert(ts.take(argv.len() - 1) =~= ts);
        } else {
            assert(ts =~= Seq::<Seq<char>>::empty());
        }
        assert(read_args(ts) == Ok::<Scan, ArgsError>(reading.view_scan()));
        if reading.awaiting.is_some() {
            return Err(ArgsError::Usage);
        }
        match reading.scene_spec_path {
            None => Err(ArgsError::Usage),
            Some(path) => {
                let log_level = match reading.log_level {
                    Some(l) => l,
                    None => LogLevel::Info,
                };
                let width = match reading.width {
                    Some(w) => w,
                    None => 1920,
                };
                let height = match reading.height {
                    Some(h) => h,
                    None => 1080,
                };
                Ok(Args { log_level, scene_spec_path: path, width, height, debug_gpu: reading.debug_gpu })
            },
        }
    }
}

/// `c` is an ASCII upper-case letter.
pub open spec fn is_upper(c: char) -> bool {
    'A' as u32 <= c as u32 && c as u32 <= 'Z' as u32
}

/// `s` and `t` are the same text up to the case of ASCII letters.
pub open spec fn same_up_to_ascii_case(s: Seq<char>, t: Seq<char>) -> bool {
    &&& s.len() == t.len()
    &&& forall|i: int|
        0 <= i < s.len() ==> #[trigger] s[i] == t[i] || (is_upper(s[i]) && s[i] as u32 + 32 == t[i] as u32) || (
        is_upper(t[i]) && t[i] as u32 + 32 == s[i] as u32)
}

/// A string names a level exactly when it is the level's lower-case name up
/// to the case of ASCII letters: `error`, `warn`, `info`, `debug`, `trace`,
/// in any mix of cases.
pub proof fn law_level_names(s: Seq<char>)
    ensures
        level_named(s) == Some(LogLevel::Error) <==> same_up_to_ascii_case(s, seq!['e', 'r', 'r', 'o', 'r']),
        level_named(s) == Some(LogLevel::Warn) <==> same_up_to_ascii_case(s, seq!['w', 'a', 'r', 'n']),
        level_named(s) == Some(LogLevel::Info) <==> same_up_to_ascii_case(s, seq!['i', 'n', 'f', 'o']),
        level_named(s) == Some(LogLevel::Debug) <==> same_up_to_ascii_case(s, seq!['d', 'e', 'b', 'u', 'g']),
        level_named(s) == Some(LogLevel::Trace) <==> same_up_to_ascii_case(s, seq!['t', 'r', 'a', 'c', 'e']),
{
    reveal_strlit("error");
    reveal_strlit("warn");
    reveal_strlit("info");
    reveal_strlit("debug");
    reveal_strlit("trace");
    let e = seq!['e', 'r', 'r', 'o', 'r'];
    let w = seq!['w', 'a', 'r', 'n'];
    let i = seq!['i', 'n', 'f', 'o'];
    let d = seq!['d', 'e', 'b', 'u', 'g'];
    let t = seq!['t', 'r', 'a', 'c', 'e'];
    assert("error"@ == e);
    assert("warn"@ == w);
    assert("info"@ == i);
    assert("debug"@ == d);
    assert("trace"@ == t);
    lemma_ignore_case_words(s, e);
    lemma_ignore_case_words(s, w);
    lemma_ignore_case_words(s, i);
    lemma_ignore_case_words(s, d);
    lemma_ignore_case_words(s, t);
    if s.len() == 4 && eq_ignore_case(s, w) {
        assert(!eq_ignore_case(s, i)) by {
            assert(s[0] == w[0] || s[0] as u32 + 32 == w[0] as u32);
        }
    }
    if s.len() == 5 {
        if eq_ignore_case(s, e) {
            assert(!eq_ignore_case(s, d) && !eq_ignore_case(s, t)) by {
                assert(s[0] == e[0] || s[0] as u32 + 32 == e[0] as u32);
            }
        }
        if eq_ignore_case(s, d) {
            assert(!eq_ignore_case(s, t)) by {
                assert(s[0] == d[0] || s[0] as u32 + 32 == d[0] as u32);
            }
        }
    }
}

/// For a word of lower-case ASCII letters, comparing ignoring case is being
/// the same text up to ASCII case.
proof fn lemma_ignore_case_words(s: Seq<char>, word: Seq<char>)
    requires
        forall|i: int| 0 <= i < word.len() ==> 'a' <= #[trigger] word[i] && word[i] <= 'z',
    ensures
        eq_ignore_case(s, word) <==> same_up_to_ascii_case(s, word),
{
    if eq_ignore_case(s, word) {
        assert forall|i: int| 0 <= i < s.len() implies #[trigger] s[i] == word[i] || (is_upper(s[i]) && s[i] as u32 + 32
            == word[i] as u32) || (is_upper(word[i]) && word[i] as u32 + 32 == s[i] as u32) by {
            assert('a' <= word[i] && word[i] <= 'z');
            assert(s[i] == word[i] || s[i] as u32 + 32 == word[i] as u32);
            if s[i] != word[i] {
                assert('a' as u32 == 97 && 'z' as u32 == 122 && 'A' as u32 == 65 && 'Z' as u32 == 90);
                assert(65 <= s[i] as u32 <= 90);
                assert(is_upper(s[i]));
            }
        }
    }
    if same_up_to_ascii_case(s, word) {
        assert forall|i: int| 0 <= i < s.len() implies #[trigger] s[i] == word[i] || s[i] as u32 + 32 == word[i] as u32 by {
            assert('a' <= word[i] && word[i] <= 'z');
        }
    }
}

/// The index of the first `=` is the length of an `=`-free prefix plus the
/// index in what follows.
proof fn lemma_first_eq_after(a: Seq<char>, b: Seq<char>)
    requires
        forall|i: int| 0 <= i < a.len() ==> a[i] != '=',
    ensures
        first_eq(a + b) == a.len() + first_eq(b),
    decreases a.len(),
{
    if a.len() > 0 {
        assert((a + b)[0] == a[0]);
        assert((a + b).drop_first() =~= a.drop_first() + b);
        lemma_first_eq_after(a.drop_first(), b);
    } else {
        assert(a + b =~= b);
    }
}

/// A long option that takes a value means the same with its value in the
/// next argument as with the value attached after `=`: reading `--name`
/// then `v` gives what reading `--name=v` gives, from any point of the
/// command line where an option may come.
pub proof fn law_long_value_forms(s: Scan, name: Seq<char>, v: Seq<char>)
    requires
        !s.trailing,
        s.awaiting is None,
        long_opt(name) is Some,
        takes_value(long_opt(name)->0),
        !flag_like(v),
    ensures
        (match read_arg(s, seq!['-', '-'] + name) {
            Ok(s1) => read_arg(s1, v),
            Err(e) => Err(e),
        }) == read_arg(s, seq!['-', '-'] + name + seq!['='] + v),
{
    reveal_strlit("log-level");
    reveal_strlit("scene-spec");
    reveal_strlit("width");
    reveal_strlit("height");
    reveal_strlit("--");
    let o = long_opt(name)->0;
    assert(name.len() > 0);
    assert(forall|i: int| 0 <= i < name.len() ==> name[i] != '=');
    let t1 = seq!['-', '-'] + name;
    let t2 = seq!['-', '-'] + name + seq!['='] + v;
    assert(t1 != "--"@) by {
        assert(t1.len() != 2);
    }
    assert(t2 != "--"@) by {
        assert(t2.len() != 2);
    }
    assert(t1.skip(2) =~= name);
    assert(t2.skip(2) =~= name + (seq!['='] + v));
    lemma_first_eq_after(name, Seq::<char>::empty());
    assert(name + Seq::<char>::empty() =~= name);
    lemma_first_eq_after(name, seq!['='] + v);
    assert(first_eq(seq!['='] + v) == 0);
    assert((name + (seq!['='] + v)).take(name.len() as int) =~= name);
    assert((name + (seq!['='] + v)).skip(name.len() + 1int) =~= v);
    assert(name.take(name.len() as int) =~= name);
    let s1 = Scan { awaiting: Some(o), ..s };
    assert(read_arg(s, t1) == Ok::<Scan, ArgsError>(s1));
    assert(read_arg(s1, v) == give_value(s1, o, v));
    assert(read_arg(s, t2) == give_value(s, o, v));
}

/// A command line that gives the scene and the width, each in its own
/// argument after its long option, gives that scene and that width, and
/// every other option its default: log level `Info`, height 1080, no GPU
/// debugging.
pub proof fn law_scene_and_width(prog: Seq<char>, path: Seq<char>, v: Seq<char>)
    requires
        !flag_like(path),
        !flag_like(v),
        u32_named(v) is Some,
    ensures
        parse_args(seq![prog, "--scene-spec"@, path, "--width"@, v]) == Ok::<ArgsView, ArgsError>(
            ArgsView {
                log_level: LogLevel::Info,
                scene_spec_path: path,
                width: u32_named(v)->0,
                height: 1080,
                debug_gpu: false,
            },
        ),
{
    reveal_strlit("--scene-spec");
    reveal_strlit("--width");
    reveal_strlit("scene-spec");
    reveal_strlit("width");
    reveal_strlit("log-level");
    let argv = seq![prog, "--scene-spec"@, path, "--width"@, v];
    let ts = arguments(argv);
    assert(ts =~= seq!["--scene-spec"@, path, "--width"@, v]);
    let ss = seq!['s', 'c', 'e', 'n', 'e', '-', 's', 'p', 'e', 'c'];
    let ww = seq!['w', 'i', 'd', 't', 'h'];
    assert("--scene-spec"@ == seq!['-', '-'] + ss);
    assert("--width"@ == seq!['-', '-'] + ww);
    assert("scene-spec"@ =~= ss);
    assert("width"@ =~= ww);
    assert(long_opt(ss) == Some(Opt::SceneSpec));
    assert(long_opt(ww) == Some(Opt::Width));
    let s0 = scan_start();
    law_long_value_forms(s0, ss, path);
    assert(read_args(Seq::<Seq<char>>::empty()) == Ok::<Scan, ArgsError>(s0));
    assert(ts.take(1).drop_last() =~= Seq::<Seq<char>>::empty());
    assert(ts.take(1).last() == "--scene-spec"@);
    let s1 = Scan { awaiting: Some(Opt::SceneSpec), ..s0 };
    assert(read_arg(s0, seq!['-', '-'] + ss) == Ok::<Scan, ArgsError>(s1)) by {
        assert(first_eq(ss) == 10) by {
            lemma_first_eq_after(ss, Seq::<char>::empty());
            assert(ss + Seq::<char>::empty() =~= ss);
        }
        assert(ss.take(10) =~= ss);
        assert(seq!['-', '-'] + ss != "--"@) by {
            reveal_strlit("--");
        }
        assert((seq!['-', '-'] + ss).skip(2) =~= ss);
    }
    assert(read_args(ts.take(1)) == Ok::<Scan, ArgsError>(s1));
    assert(ts.take(2).drop_last() =~= ts.take(1));
    assert(ts.take(2).last() == path);
    let s2 = Scan {
        draft: Draft { scene_spec_path: Some(path), ..s0.draft },
        awaiting: None,
        trailing: false,
    };
    assert(read_arg(s1, path) == Ok::<Scan, ArgsError>(s2));
    assert(read_args(ts.take(2)) == Ok::<Scan, ArgsError>(s2));
    law_long_value_forms(s2, ww, v);
    let s3 = Scan { awaiting: Some(Opt::Width), ..s2 };
    assert(read_arg(s2, seq!['-', '-'] + ww) == Ok::<Scan, ArgsError>(s3)) by {
        assert(first_eq(ww) == 5) by {
            lemma_first_eq_after(ww, Seq::<char>::empty());
            assert(ww + Seq::<char>::empty() =~= ww);
        }
        assert(ww.take(5) =~= ww);
        assert(seq!['-', '-'] + ww != "--"@) by {
            reveal_strlit("--");
        }
        assert((seq!['-', '-'] + ww).skip(2) =~= ww);
    }
    assert(ts.take(3).drop_last() =~= ts.take(2));
    assert(ts.take(3).last() == "--width"@);
    assert(ts.take(4).drop_last() =~= ts.take(3));
    assert(ts.take(4) =~= ts);
    assert(read_args(ts.take(3)) == Ok::<Scan, ArgsError>(s3));
    let s4 = Scan { draft: Draft { width: u32_named(v), ..s2.draft }, awaiting: None, trailing: false };
    assert(read_arg(s3, v) == Ok::<Scan, ArgsError>(s4));
    assert(read_args(ts) == Ok::<Scan, ArgsError>(s4));
}

/// A short option that takes a value means the same with its value in the
/// next argument as with the value attached, with or without `=`: reading
/// `-c` then `v` gives what reading `-c=v` gives, and, when `v` is not empty
/// and does not start with `=`, what reading `-cv` gives.
pub proof fn law_short_value_forms(s: Scan, c: char, v: Seq<char>)
    requires
        !s.trailing,
        s.awaiting is None,
        short_opt(c) is Some,
        takes_value(short_opt(c)->0),
        !flag_like(v),
    ensures
        (match read_arg(s, seq!['-', c]) {
            Ok(s1) => read_arg(s1, v),
            Err(e) => Err(e),
        }) == read_arg(s, seq!['-', c, '='] + v),
        v.len() > 0 && v[0] != '=' ==> (match read_arg(s, seq!['-', c]) {
            Ok(s1) => read_arg(s1, v),
            Err(e) => Err(e),
        }) == read_arg(s, seq!['-', c] + v),
{
    reveal_strlit("--");
    let o = short_opt(c)->0;
    assert(c != '-');
    let t1 = seq!['-', c];
    let t2 = seq!['-', c, '='] + v;
    let t3 = seq!['-', c] + v;
    assert(t1 != "--"@);
    assert(t2 != "--"@);
    assert(t1.skip(2) =~= Seq::<char>::empty());
    assert(t2.skip(2) =~= seq!['='] + v);
    assert((seq!['='] + v).drop_first() =~= v);
    let s1 = Scan { awaiting: Some(o), ..s };
    assert(read_arg(s, t1) == Ok::<Scan, ArgsError>(s1));
    assert(read_arg(s1, v) == give_value(s1, o, v));
    assert(read_arg(s, t2) == give_value(s, o, v));
    if v.len() > 0 && v[0] != '=' {
        assert(t3 != "--"@) by {
            assert(t3[1] == c);
        }
        assert(t3.skip(2) =~= v);
        assert(read_arg(s, t3) == give_value(s, o, v));
    }
}

/// An option read by its long name is read as by its short name:
/// `--name` and `-c` do the same wherever an option may come, when both
/// name the same option.
pub proof fn law_long_short_same(s: Scan, name: Seq<char>, c: char)
    requires
        !s.trailing,
        s.awaiting is None,
        long_opt(name) is Some,
        long_opt(name) == short_opt(c),
    ensures
        read_arg(s, seq!['-', '-'] + name) == read_arg(s, seq!['-', c]),
{
    reveal_strlit("log-level");
    reveal_strlit("scene-spec");
    reveal_strlit("width");
    reveal_strlit("height");
    reveal_strlit("debug-gpu");
    reveal_strlit("help");
    reveal_strlit("version");
    reveal_strlit("--");
    assert(name.len() > 0);
    assert(forall|i: int| 0 <= i < name.len() ==> name[i] != '=');
    assert(c != '-');
    let t1 = seq!['-', '-'] + name;
    let t2 = seq!['-', c];
    assert(t1 != "--"@) by {
        assert(t1.len() != 2);
    }
    assert(t2 != "--"@);
    assert(t1.skip(2) =~= name);
    assert(t2.skip(2) =~= Seq::<char>::empty());
    lemma_first_eq_after(name, Seq::<char>::empty());
    assert(name + Seq::<char>::empty() =~= name);
    assert(name.take(name.len() as int) =~= name);
}

/// A command line that gives only the scene, after `-s` in its own
/// argument, gives that scene and every other option its default: log level
/// `Info`, width 1920, height 1080, no GPU debugging.
pub proof fn law_defaults(prog: Seq<char>, path: Seq<char>)
    requires
        !flag_like(path),
    ensures
        parse_args(seq![prog, seq!['-', 's'], path]) == Ok::<ArgsView, ArgsError>(
            ArgsView { log_level: LogLevel::Info, scene_spec_path: path, width: 1920, height: 1080, debug_gpu: false },
        ),
{
    reveal_strlit("--");
    let argv = seq![prog, seq!['-', 's'], path];
    let ts = arguments(argv);
    assert(ts =~= seq![seq!['-', 's'], path]);
    let s0 = scan_start();
    let t = seq!['-', 's'];
    assert(t != "--"@);
    assert(t.skip(2) =~= Seq::<char>::empty());
    let s1 = Scan { awaiting: Some(Opt::SceneSpec), ..s0 };
    assert(read_arg(s0, t) == Ok::<Scan, ArgsError>(s1));
    assert(read_args(Seq::<Seq<char>>::empty()) == Ok::<Scan, ArgsError>(s0));
    assert(ts.take(1).drop_last() =~= Seq::<Seq<char>>::empty());
    assert(ts.take(1).last() == t);
    assert(read_args(ts.take(1)) == Ok::<Scan, ArgsError>(s1));
    assert(ts.take(2).drop_last() =~= ts.take(1));
    assert(ts.take(2) =~= ts);
    let s2 = Scan {
        draft: Draft { scene_spec_path: Some(path), ..s0.draft },
        awaiting: None,
        trailing: false,
    };
    assert(read_arg(s1, path) == Ok::<Scan, ArgsError>(s2));
    assert(read_args(ts) == Ok::<Scan, ArgsError>(s2));
}

} // verus!
