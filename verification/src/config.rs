//! The user configuration of the file system and how each line of a
//! configuration file changes it.
//!
//! A configuration file holds `key=value` lines. Empty lines are ignored; a
//! line holding `/*` opens a comment, and the lines up to one holding `*/` are
//! ignored. Numeric settings are read as `u128`; a path setting is kept only
//! where the path exists, which the caller finds out and reports back.

use vstd::prelude::*;
use crate::decimal::{parse_u128, parse_unsigned, IntErrorKind};
use crate::text::{
    chars_eq, chars_of, contains, find_chars, lemma_find_bounds, split_once, trim, trim_bounds,
};

verus! {

/// The settings of the file system.
#[derive(Debug)]
pub struct UserConfig {
    f_size: u128,
    f_location: String,
    conf_location: String,
    s_block_location: u128,
    startpoint: u128,
    endpoint: u128,
}

/// The settings by views.
pub struct ConfigView {
    pub f_size: u128,
    pub f_location: Seq<char>,
    pub conf_location: Seq<char>,
    pub s_block_location: u128,
    pub startpoint: u128,
    pub endpoint: u128,
}

impl View for UserConfig {
    type V = ConfigView;

    closed spec fn view(&self) -> ConfigView {
        ConfigView {
            f_size: self.f_size,
            f_location: self.f_location@,
            conf_location: self.conf_location@,
            s_block_location: self.s_block_location,
            startpoint: self.startpoint,
            endpoint: self.endpoint,
        }
    }
}

/// A numeric setting.
#[derive(Debug, PartialEq, Eq, Structural, Clone, Copy)]
pub enum NumericKey {
    FSize,
    Startpoint,
    Endpoint,
    SBlockLocation,
}

/// A path setting.
#[derive(Debug, PartialEq, Eq, Structural, Clone, Copy)]
pub enum PathKey {
    FLocation,
    ConfLocation,
}

/// What the caller has to do after a line is read.
#[derive(Debug)]
pub enum LineAction {
    /// Nothing: the line was empty, a comment, or set a number.
    Nothing,
    /// The line is a setting without `=`.
    MissingSeparator,
    /// The value of the numeric setting `key` is not a `u128`.
    BadNumber { key: String, kind: IntErrorKind },
    /// The path setting `key` asks for `path`: find out whether it exists and
    /// report back with `UserConfig::apply_path`.
    CheckPath { setting: PathKey, path: String },
    /// `key` is no setting.
    InvalidPair { key: String, value: String },
}

/// A line action by views.
pub enum ActionView {
    Nothing,
    MissingSeparator,
    BadNumber(Seq<char>, IntErrorKind),
    CheckPath(PathKey, Seq<char>),
    InvalidPair(Seq<char>, Seq<char>),
}

impl View for LineAction {
    type V = ActionView;

    open spec fn view(&self) -> ActionView {
        match self {
            LineAction::Nothing => ActionView::Nothing,
            LineAction::MissingSeparator => ActionView::MissingSeparator,
            LineAction::BadNumber { key, kind } => ActionView::BadNumber(key@, *kind),
            LineAction::CheckPath { setting, path } => ActionView::CheckPath(*setting, path@),
            LineAction::InvalidPair { key, value } => ActionView::InvalidPair(key@, value@),
        }
    }
}

/// The settings before any file is read.
pub open spec fn default_config() -> ConfigView {
    ConfigView {
        f_size: 1000,
        f_location: "path/to/file"@,
        conf_location: "conf_Test.txt"@,
        s_block_location: 8000,
        startpoint: 10,
        endpoint: 1010,
    }
}

/// The path used in place of one that does not exist.
pub open spec fn fallback_path() -> Seq<char> {
    "default/path/on/device"@
}

/// The name of a numeric setting.
pub open spec fn numeric_name(k: NumericKey) -> Seq<char> {
    match k {
        NumericKey::FSize => seq!['f', '_', 's', 'i', 'z', 'e'],
        NumericKey::Startpoint => seq!['s', 't', 'a', 'r', 't', 'p', 'o', 'i', 'n', 't'],
        NumericKey::Endpoint => seq!['e', 'n', 'd', 'p', 'o', 'i', 'n', 't'],
        NumericKey::SBlockLocation => seq![
            's', '_', 'b', 'l', 'o', 'c', 'k', '_', 'l', 'o', 'c', 'a', 't', 'i', 'o', 'n',
        ],
    }
}

/// The name of a path setting.
pub open spec fn path_name(k: PathKey) -> Seq<char> {
    match k {
        PathKey::FLocation => seq!['f', '_', 'l', 'o', 'c', 'a', 't', 'i', 'o', 'n'],
        PathKey::ConfLocation => seq![
            'c', 'o', 'n', 'f', '_', 'l', 'o', 'c', 'a', 't', 'i', 'o', 'n',
        ],
    }
}

/// The numeric setting named `key`.
pub open spec fn numeric_key(key: Seq<char>) -> Option<NumericKey> {
    if key == numeric_name(NumericKey::FSize) {
        Some(NumericKey::FSize)
    } else if key == numeric_name(NumericKey::Startpoint) {
        Some(NumericKey::Startpoint)
    } else if key == numeric_name(NumericKey::Endpoint) {
        Some(NumericKey::Endpoint)
    } else if key == numeric_name(NumericKey::SBlockLocation) {
        Some(NumericKey::SBlockLocation)
    } else {
        None
    }
}

/// The path setting named `key`.
pub open spec fn path_key(key: Seq<char>) -> Option<PathKey> {
    if key == path_name(PathKey::FLocation) {
        Some(PathKey::FLocation)
    } else if key == path_name(PathKey::ConfLocation) {
        Some(PathKey::ConfLocation)
    } else {
        None
    }
}

/// `c` with the numeric setting `key` set to `v`.
pub open spec fn with_number(c: ConfigView, key: NumericKey, v: u128) -> ConfigView {
    match key {
        NumericKey::FSize => ConfigView { f_size: v, ..c },
        NumericKey::Startpoint => ConfigView { startpoint: v, ..c },
        NumericKey::Endpoint => ConfigView { endpoint: v, ..c },
        NumericKey::SBlockLocation => ConfigView { s_block_location: v, ..c },
    }
}

/// `c` with the path setting `key` set to `p`.
pub open spec fn with_path(c: ConfigView, key: PathKey, p: Seq<char>) -> ConfigView {
    match key {
        PathKey::FLocation => ConfigView { f_location: p, ..c },
        PathKey::ConfLocation => ConfigView { conf_location: p, ..c },
    }
}

/// The path kept for a setting that asks for `path`.
pub open spec fn resolved_path(path: Seq<char>, exists: bool) -> Seq<char> {
    if exists {
        path
    } else {
        fallback_path()
    }
}

/// What a setting `key=value`, both trimmed, does.
pub open spec fn setting_step(c: ConfigView, key: Seq<char>, value: Seq<char>) -> (
    ConfigView,
    ActionView,
) {
    match numeric_key(key) {
        Some(k) => match parse_unsigned(value, u128::MAX as int) {
            Ok(v) => (with_number(c, k, v as u128), ActionView::Nothing),
            Err(e) => (c, ActionView::BadNumber(key, e)),
        },
        None => match path_key(key) {
            Some(k) => (c, ActionView::CheckPath(k, value)),
            None => (c, ActionView::InvalidPair(key, value)),
        },
    }
}

/// What reading `line` does, inside a comment or not (`skip`): the settings,
/// whether the next line is inside a comment, and the action.
pub open spec fn line_step(c: ConfigView, skip: bool, line: Seq<char>) -> (
    ConfigView,
    bool,
    ActionView,
) {
    if line.len() == 0 {
        (c, skip, ActionView::Nothing)
    } else if contains(line, seq!['*', '/']) {
        (c, false, ActionView::Nothing)
    } else if skip || contains(line, seq!['/', '*']) {
        (c, true, ActionView::Nothing)
    } else {
        match split_once(line, seq!['=']) {
            None => (c, false, ActionView::MissingSeparator),
            Some((key, value)) => {
                let (c2, a) = setting_step(c, trim(key), trim(value));
                (c2, false, a)
            },
        }
    }
}

impl Default for UserConfig {
    fn default() -> (r: Self)
        ensures
            r@ == default_config(),
    {
        UserConfig {
            f_size: 1000,
            f_location: String::from_str("path/to/file"),
            conf_location: String::from_str("conf_Test.txt"),
            s_block_location: 8000,
            startpoint: 10,
            endpoint: 1010,
        }
    }
}

/// The path kept for a setting that asks for `f_path`, where `exists` tells
/// whether that path exists.
pub fn resolve_path(f_path: &str, exists: bool) -> (r: String)
    ensures
        r@ == resolved_path(f_path@, exists),
{
    if exists {
        String::from_str(f_path)
    } else {
        String::from_str("default/path/on/device")
    }
}

fn numeric_key_of(key: &Vec<char>) -> (r: Option<NumericKey>)
    ensures
        r == numeric_key(key@),
{
    proof {
        reveal_strlit("f_size");
        reveal_strlit("startpoint");
        reveal_strlit("endpoint");
        reveal_strlit("s_block_location");
        assert("f_size"@ =~= numeric_name(NumericKey::FSize));
        assert("startpoint"@ =~= numeric_name(NumericKey::Startpoint));
        assert("endpoint"@ =~= numeric_name(NumericKey::Endpoint));
        assert("s_block_location"@ =~= numeric_name(NumericKey::SBlockLocation));
    }
    if chars_eq(key, &chars_of("f_size")) {
        Some(NumericKey::FSize)
    } else if chars_eq(key, &chars_of("startpoint")) {
        Some(NumericKey::Startpoint)
    } else if chars_eq(key, &chars_of("endpoint")) {
        Some(NumericKey::Endpoint)
    } else if chars_eq(key, &chars_of("s_block_location")) {
        Some(NumericKey::SBlockLocation)
    } else {
        None
    }
}

fn path_key_of(key: &Vec<char>) -> (r: Option<PathKey>)
    ensures
        r == path_key(key@),
{
    proof {
        reveal_strlit("f_location");
        reveal_strlit("conf_location");
        assert("f_location"@ =~= path_name(PathKey::FLocation));
        assert("conf_location"@ =~= path_name(PathKey::ConfLocation));
    }
    if chars_eq(key, &chars_of("f_location")) {
        Some(PathKey::FLocation)
    } else if chars_eq(key, &chars_of("conf_location")) {
        Some(PathKey::ConfLocation)
    } else {
        None
    }
}

impl UserConfig {
    /// The size of the file system.
    pub fn f_size(&self) -> (r: u128)
        ensures
            r == self@.f_size,
    {
        self.f_size
    }

    /// Where the file system lives.
    pub fn f_location(&self) -> (r: &str)
        ensures
            r@ == self@.f_location,
    {
        self.f_location.as_str()
    }

    /// Where the configuration file is.
    pub fn conf_location(&self) -> (r: &str)
        ensures
            r@ == self@.conf_location,
    {
        self.conf_location.as_str()
    }

    /// Where the super block lives.
    pub fn s_block_location(&self) -> (r: u128)
        ensures
            r == self@.s_block_location,
    {
        self.s_block_location
    }

    /// The first block.
    pub fn startpoint(&self) -> (r: u128)
        ensures
            r == self@.startpoint,
    {
        self.startpoint
    }

    /// The last block.
    pub fn endpoint(&self) -> (r: u128)
        ensures
            r == self@.endpoint,
    {
        self.endpoint
    }

    fn set_number(&mut self, key: NumericKey, v: u128)
        ensures
            final(self)@ == with_number(old(self)@, key, v),
    {
        match key {
            NumericKey::FSize => self.f_size = v,
            NumericKey::Startpoint => self.startpoint = v,
            NumericKey::Endpoint => self.endpoint = v,
            NumericKey::SBlockLocation => self.s_block_location = v,
        }
    }

    /// Sets the path setting `key` to `path` where it exists, else to the
    /// fallback path.
    pub fn apply_path(&mut self, key: PathKey, path: &str, exists: bool)
        ensures
            final(self)@ == with_path(old(self)@, key, resolved_path(path@, exists)),
    {
        let p = resolve_path(path, exists);
        match key {
            PathKey::FLocation => self.f_location = p,
            PathKey::ConfLocation => self.conf_location = p,
        }
    }

    /// Reads one line of a configuration file; `skip` tells whether the line
    /// is inside a comment. Gives whether the next line is, and what the
    /// caller has to do.
    pub fn apply_line(&mut self, skip: bool, line: &str) -> (r: (bool, LineAction))
        ensures
            (final(self)@, r.0, r.1@) == line_step(old(self)@, skip, line@),
    {
        let cs = chars_of(line);
        if cs.len() == 0 {
            return (skip, LineAction::Nothing);
        }
        let close = chars_of("*/");
        let open = chars_of("/*");
        let assign = chars_of("=");
        proof {
            reveal_strlit("*/");
            reveal_strlit("/*");
            reveal_strlit("=");
            assert(close@ =~= seq!['*', '/']);
            assert(open@ =~= seq!['/', '*']);
            assert(assign@ =~= seq!['=']);
        }
        if find_chars(&cs, &close).is_some() {
            return (false, LineAction::Nothing);
        }
        if skip || find_chars(&cs, &open).is_some() {
            return (true, LineAction::Nothing);
        }
        proof {
            lemma_find_bounds(cs@, assign@);
        }
        let eq = match find_chars(&cs, &assign) {
            None => {
                return (false, LineAction::MissingSeparator);
            },
            Some(i) => i,
        };
        assert(eq + 1 <= cs.len());
        let n = cs.len();
        let key_part = crate::text::slice_chars(&cs, 0, eq);
        let value_part = crate::text::slice_chars(&cs, eq + 1, n);
        assert(key_part@ =~= cs@.take(eq as int));
        assert(value_part@ =~= cs@.skip(eq + 1));
        let (ka, kb) = trim_bounds(&key_part);
        let (va, vb) = trim_bounds(&value_part);
        let key = String::from_str(line.substring_char(ka, kb));
        let value = String::from_str(line.substring_char(eq + 1 + va, eq + 1 + vb));
        assert(key@ =~= trim(cs@.take(eq as int)));
        assert(value@ =~= trim(cs@.skip(eq + 1)));
        let key_chars = crate::text::slice_chars(&key_part, ka, kb);
        assert(key_chars@ == key@);
        match numeric_key_of(&key_chars) {
            Some(k) => match parse_u128(value.as_str()) {
                Ok(v) => {
                    self.set_number(k, v);
                    (false, LineAction::Nothing)
                },
                Err(e) => (false, LineAction::BadNumber { key, kind: e }),
            },
            None => match path_key_of(&key_chars) {
                Some(k) => (false, LineAction::CheckPath { setting: k, path: value }),
                None => (false, LineAction::InvalidPair { key, value }),
            },
        }
    }
}

// ---------------------------------------------------------------------------
// Laws of the configuration format
// ---------------------------------------------------------------------------

/// The settings and the comment state after reading `lines` in turn; path
/// settings are left to the caller, as `apply_line` leaves them.
pub open spec fn read_lines(c: ConfigView, skip: bool, lines: Seq<Seq<char>>) -> (ConfigView, bool)
    decreases lines.len(),
{
    if lines.len() == 0 {
        (c, skip)
    } else {
        let (c2, skip2, _) = line_step(c, skip, lines[0]);
        read_lines(c2, skip2, lines.drop_first())
    }
}

/// Inside a comment, lines that do not close it change nothing.
pub proof fn lemma_comment_body_ignored(c: ConfigView, lines: Seq<Seq<char>>)
    requires
        forall|i: int| 0 <= i < lines.len() ==> !contains(#[trigger] lines[i], seq!['*', '/']),
    ensures
        read_lines(c, true, lines) == (c, true),
    decreases lines.len(),
{
    if lines.len() > 0 {
        assert(!contains(lines[0], seq!['*', '/']));
        let rest = lines.drop_first();
        assert forall|i: int| 0 <= i < rest.len() implies !contains(#[trigger] rest[i], seq!['*', '/']) by {
            assert(rest[i] == lines[i + 1]);
        }
        lemma_comment_body_ignored(c, rest);
    }
}

/// A comment opened by a line holding `/*` (and no `*/`) hides every
/// following line up to one holding `*/`: the settings stay as they were,
/// and the comment stays open.
pub proof fn lemma_comment_block_ignored(
    c: ConfigView,
    skip: bool,
    open: Seq<char>,
    body: Seq<Seq<char>>,
)
    requires
        contains(open, seq!['/', '*']),
        !contains(open, seq!['*', '/']),
        forall|i: int| 0 <= i < body.len() ==> !contains(#[trigger] body[i], seq!['*', '/']),
    ensures
        read_lines(c, skip, seq![open] + body) == (c, true),
{
    crate::text::lemma_find_bounds(open, seq!['/', '*']);
    assert((seq![open] + body)[0] == open);
    assert((seq![open] + body).drop_first() =~= body);
    lemma_comment_body_ignored(c, body);
}

/// A line that holds `*/` closes a comment and changes nothing.
pub proof fn lemma_comment_close(c: ConfigView, skip: bool, line: Seq<char>)
    requires
        contains(line, seq!['*', '/']),
    ensures
        line_step(c, skip, line) == (c, false, ActionView::Nothing),
{
    crate::text::lemma_find_bounds(line, seq!['*', '/']);
}

proof fn lemma_plain_name_char(c: char)
    requires
        ('a' <= c && c <= 'z') || c == '_',
    ensures
        c != '*' && c != '/' && c != '=' && !crate::text::is_white_space(c),
{
}

/// The line `name=value` that sets the numeric setting `k` to `v`.
pub open spec fn numeric_line(k: NumericKey, v: nat) -> Seq<char> {
    numeric_name(k) + seq!['='] + crate::decimal::decimal(v)
}

/// Outside a comment, the line `name=v` sets the numeric setting `name` to
/// `v` and changes nothing else.
pub proof fn lemma_numeric_line_sets(c: ConfigView, k: NumericKey, v: u128)
    ensures
        line_step(c, false, numeric_line(k, v as nat)) == (
            with_number(c, k, v),
            false,
            ActionView::Nothing,
        ),
{
    let name = numeric_name(k);
    let digits = crate::decimal::decimal(v as nat);
    let line = numeric_line(k, v as nat);
    crate::decimal::lemma_decimal(v as nat);
    crate::decimal::lemma_parse_decimal(v as nat, u128::MAX as int);
    assert forall|i: int| 0 <= i < name.len() implies (('a' <= #[trigger] name[i] && name[i] <= 'z')
        || name[i] == '_') by {
    }
    assert forall|i: int| 0 <= i < line.len() implies #[trigger] line[i] != '*' && line[i] != '/' by {
        if i < name.len() {
            lemma_plain_name_char(name[i]);
        } else if i > name.len() {
            assert(line[i] == digits[i - name.len() - 1]);
            assert(crate::decimal::is_digit(digits[i - name.len() - 1]));
        }
    }
    crate::text::lemma_find_absent_first(line, seq!['*', '/']);
    crate::text::lemma_find_absent_first(line, seq!['/', '*']);
    assert forall|j: int| 0 <= j < name.len() implies #[trigger] line.subrange(j, j + 1) != seq!['='] by {
        lemma_plain_name_char(name[j]);
        assert(line.subrange(j, j + 1)[0] == name[j]);
    }
    assert(line.subrange(name.len() as int, name.len() + 1 as int) =~= seq!['=']);
    crate::text::lemma_find_from_is(line, seq!['='], 0, name.len() as int);
    assert(line.take(name.len() as int) =~= name);
    assert(line.skip(name.len() + 1 as int) =~= digits);
    lemma_plain_name_char(name[0]);
    lemma_plain_name_char(name.last());
    crate::text::lemma_trim_unchanged(name);
    assert(crate::decimal::is_digit(digits[0]));
    assert(crate::decimal::is_digit(digits.last()));
    crate::text::lemma_trim_unchanged(digits);
    assert(numeric_key(name) == Some(k));
}

/// Each numeric line read in turn sets its setting; what a later line sets
/// replaces what an earlier one set for the same setting.
pub proof fn lemma_numeric_lines_last_wins(c: ConfigView, k: NumericKey, v1: u128, v2: u128)
    ensures
        read_lines(c, false, seq![numeric_line(k, v1 as nat), numeric_line(k, v2 as nat)]) == (
            with_number(c, k, v2),
            false,
        ),
{
    let lines = seq![numeric_line(k, v1 as nat), numeric_line(k, v2 as nat)];
    lemma_numeric_line_sets(c, k, v1);
    lemma_numeric_line_sets(with_number(c, k, v1), k, v2);
    assert(lines.drop_first() =~= seq![numeric_line(k, v2 as nat)]);
    assert(lines.drop_first().drop_first() =~= Seq::<Seq<char>>::empty());
    assert(with_number(with_number(c, k, v1), k, v2) == with_number(c, k, v2));
    let c1 = with_number(c, k, v1);
    assert(read_lines(c1, false, lines.drop_first()) == read_lines(
        with_number(c1, k, v2),
        false,
        lines.drop_first().drop_first(),
    ));
    assert(read_lines(c, false, lines) == read_lines(c1, false, lines.drop_first()));
}

/// The line `name=path` for the path setting `k`.
pub open spec fn path_line(k: PathKey, path: Seq<char>) -> Seq<char> {
    path_name(k) + seq!['='] + path
}

/// Outside a comment, a line `name=path` for a path setting, where `path`
/// has no white space at its ends and opens or closes no comment, changes
/// nothing yet and asks the caller to check exactly `path`; once told, the
/// setting holds `path` if it exists and the fallback path if not.
pub proof fn lemma_path_line_checks(c: ConfigView, k: PathKey, path: Seq<char>, exists: bool)
    requires
        path.len() > 0,
        !crate::text::is_white_space(path[0]),
        !crate::text::is_white_space(path.last()),
        !contains(path, seq!['*', '/']),
        !contains(path, seq!['/', '*']),
    ensures
        line_step(c, false, path_line(k, path)) == (c, false, ActionView::CheckPath(k, path)),
        with_path(c, k, resolved_path(path, exists)).f_size == c.f_size,
        exists ==> with_path(c, k, resolved_path(path, exists)) == with_path(c, k, path),
        !exists ==> with_path(c, k, resolved_path(path, exists)) == with_path(c, k, fallback_path()),
{
    let name = path_name(k);
    let line = path_line(k, path);
    let l = name.len() as int;
    assert forall|i: int| 0 <= i < name.len() implies (('a' <= #[trigger] name[i] && name[i] <= 'z')
        || name[i] == '_') by {
    }
    crate::text::lemma_find_bounds(path, seq!['*', '/']);
    crate::text::lemma_find_bounds(path, seq!['/', '*']);
    assert forall|j: int| 0 <= j && j + 2 <= line.len() implies #[trigger] line.subrange(j, j + 2)
        != seq!['*', '/'] && line.subrange(j, j + 2) != seq!['/', '*'] by {
        if j <= l {
            if j < l {
                assert(line[j] == name[j]);
                lemma_plain_name_char(name[j]);
            } else {
                assert(line[j] == '=');
            }
            assert(line.subrange(j, j + 2)[0] == line[j]);
        } else {
            let jj = j - l - 1;
            assert(line.subrange(j, j + 2) =~= path.subrange(jj, jj + 2));
            assert(path.subrange(jj, jj + seq!['*', '/'].len()) != seq!['*', '/']);
            assert(path.subrange(jj, jj + seq!['/', '*'].len()) != seq!['/', '*']);
        }
    }
    crate::text::lemma_find_from_none(line, seq!['*', '/'], 0);
    crate::text::lemma_find_from_none(line, seq!['/', '*'], 0);
    assert forall|j: int| 0 <= j < l implies #[trigger] line.subrange(j, j + 1) != seq!['='] by {
        lemma_plain_name_char(name[j]);
        assert(line.subrange(j, j + 1)[0] == name[j]);
    }
    assert(line.subrange(l, l + 1) =~= seq!['=']);
    crate::text::lemma_find_from_is(line, seq!['='], 0, l);
    assert(line.take(l) =~= name);
    assert(line.skip(l + 1) =~= path);
    lemma_plain_name_char(name[0]);
    lemma_plain_name_char(name.last());
    crate::text::lemma_trim_unchanged(name);
    crate::text::lemma_trim_unchanged(path);
    assert(numeric_key(name) is None);
    assert(path_key(name) == Some(k));
}

// ---------------------------------------------------------------------------
// Reading a whole file, and reading it again
// ---------------------------------------------------------------------------

/// The settings and the comment state after reading `lines` in turn, as a
/// configuration file is read: each path setting is answered by `path_exists`,
/// so that it keeps its path where the path exists and takes the fallback
/// path where not.
pub open spec fn read_config(
    c: ConfigView,
    skip: bool,
    lines: Seq<Seq<char>>,
    path_exists: spec_fn(Seq<char>) -> bool,
) -> (ConfigView, bool)
    decreases lines.len(),
{
    if lines.len() == 0 {
        (c, skip)
    } else {
        let (c2, skip2, a) = line_step(c, skip, lines[0]);
        let c3 = match a {
            ActionView::CheckPath(k, p) => with_path(c2, k, resolved_path(p, path_exists(p))),
            _ => c2,
        };
        read_config(c3, skip2, lines.drop_first(), path_exists)
    }
}

/// What a line does to the settings.
pub enum Effect {
    Keep,
    Number(NumericKey, u128),
    Path(PathKey, Seq<char>),
}

/// `c` after the effect `e`.
pub open spec fn apply_effect(c: ConfigView, e: Effect) -> ConfigView {
    match e {
        Effect::Keep => c,
        Effect::Number(k, v) => with_number(c, k, v),
        Effect::Path(k, p) => with_path(c, k, p),
    }
}

/// `c` after the effects `es`, in turn.
pub open spec fn apply_effects(c: ConfigView, es: Seq<Effect>) -> ConfigView
    decreases es.len(),
{
    if es.len() == 0 {
        c
    } else {
        apply_effects(apply_effect(c, es[0]), es.drop_first())
    }
}

/// The effect of `line` on the numeric settings; it does not depend on the
/// settings it is read into.
pub open spec fn number_effect(skip: bool, line: Seq<char>) -> Effect {
    if line.len() == 0 || contains(line, seq!['*', '/']) || skip || contains(line, seq!['/', '*']) {
        Effect::Keep
    } else {
        match split_once(line, seq!['=']) {
            None => Effect::Keep,
            Some((key, value)) => match numeric_key(trim(key)) {
                Some(k) => match parse_unsigned(trim(value), u128::MAX as int) {
                    Ok(v) => Effect::Number(k, v as u128),
                    Err(_) => Effect::Keep,
                },
                None => Effect::Keep,
            },
        }
    }
}

/// The effect of `line`, path settings answered by `path_exists`.
pub open spec fn config_effect(skip: bool, line: Seq<char>, path_exists: spec_fn(Seq<char>) -> bool) -> Effect {
    match line_step(default_config(), skip, line).2 {
        ActionView::CheckPath(k, p) => Effect::Path(k, resolved_path(p, path_exists(p))),
        _ => number_effect(skip, line),
    }
}

/// The comment state after `line`.
pub open spec fn next_skip(skip: bool, line: Seq<char>) -> bool {
    line_step(default_config(), skip, line).1
}

/// The numeric effects of `lines`, in turn.
pub open spec fn number_effects(skip: bool, lines: Seq<Seq<char>>) -> Seq<Effect>
    decreases lines.len(),
{
    if lines.len() == 0 {
        Seq::empty()
    } else {
        seq![number_effect(skip, lines[0])] + number_effects(
            next_skip(skip, lines[0]),
            lines.drop_first(),
        )
    }
}

/// The effects of `lines`, in turn, path settings answered by `path_exists`.
pub open spec fn config_effects(
    skip: bool,
    lines: Seq<Seq<char>>,
    path_exists: spec_fn(Seq<char>) -> bool,
) -> Seq<Effect>
    decreases lines.len(),
{
    if lines.len() == 0 {
        Seq::empty()
    } else {
        seq![config_effect(skip, lines[0], path_exists)] + config_effects(
            next_skip(skip, lines[0]),
            lines.drop_first(),
            path_exists,
        )
    }
}

/// The comment state after `lines`.
pub open spec fn end_skip(skip: bool, lines: Seq<Seq<char>>) -> bool
    decreases lines.len(),
{
    if lines.len() == 0 {
        skip
    } else {
        end_skip(next_skip(skip, lines[0]), lines.drop_first())
    }
}

/// The value of a numeric setting.
pub open spec fn number_of(c: ConfigView, k: NumericKey) -> u128 {
    match k {
        NumericKey::FSize => c.f_size,
        NumericKey::Startpoint => c.startpoint,
        NumericKey::Endpoint => c.endpoint,
        NumericKey::SBlockLocation => c.s_block_location,
    }
}

/// The value of a path setting.
pub open spec fn path_of(c: ConfigView, k: PathKey) -> Seq<char> {
    match k {
        PathKey::FLocation => c.f_location,
        PathKey::ConfLocation => c.conf_location,
    }
}

/// The last value that `es` gives the numeric setting `k`.
pub open spec fn last_number(es: Seq<Effect>, k: NumericKey) -> Option<u128>
    decreases es.len(),
{
    if es.len() == 0 {
        None
    } else {
        match last_number(es.drop_first(), k) {
            Some(v) => Some(v),
            None => match es[0] {
                Effect::Number(k2, v) => if k2 == k {
                    Some(v)
                } else {
                    None
                },
                _ => None,
            },
        }
    }
}

/// The last value that `es` gives the path setting `k`.
pub open spec fn last_path(es: Seq<Effect>, k: PathKey) -> Option<Seq<char>>
    decreases es.len(),
{
    if es.len() == 0 {
        None
    } else {
        match last_path(es.drop_first(), k) {
            Some(p) => Some(p),
            None => match es[0] {
                Effect::Path(k2, p) => if k2 == k {
                    Some(p)
                } else {
                    None
                },
                _ => None,
            },
        }
    }
}

proof fn lemma_line_step_effect(c: ConfigView, skip: bool, line: Seq<char>)
    ensures
        line_step(c, skip, line).0 == apply_effect(c, number_effect(skip, line)),
        line_step(c, skip, line).1 == next_skip(skip, line),
        line_step(c, skip, line).2 == line_step(default_config(), skip, line).2,
        line_step(c, skip, line).2 matches ActionView::CheckPath(_, _) ==> number_effect(skip, line)
            == Effect::Keep,
{
}

proof fn lemma_read_lines_effects(c: ConfigView, skip: bool, lines: Seq<Seq<char>>)
    ensures
        read_lines(c, skip, lines) == (apply_effects(c, number_effects(skip, lines)), end_skip(skip, lines)),
    decreases lines.len(),
{
    if lines.len() > 0 {
        lemma_line_step_effect(c, skip, lines[0]);
        let c2 = apply_effect(c, number_effect(skip, lines[0]));
        lemma_read_lines_effects(c2, next_skip(skip, lines[0]), lines.drop_first());
        let es = number_effects(skip, lines);
        assert(es.drop_first() =~= number_effects(next_skip(skip, lines[0]), lines.drop_first()));
    }
}

proof fn lemma_read_config_effects(
    c: ConfigView,
    skip: bool,
    lines: Seq<Seq<char>>,
    path_exists: spec_fn(Seq<char>) -> bool,
)
    ensures
        read_config(c, skip, lines, path_exists) == (
            apply_effects(c, config_effects(skip, lines, path_exists)),
            end_skip(skip, lines),
        ),
    decreases lines.len(),
{
    if lines.len() > 0 {
        lemma_line_step_effect(c, skip, lines[0]);
        let e = config_effect(skip, lines[0], path_exists);
        let c3 = apply_effect(c, e);
        let (c2, s2, a) = line_step(c, skip, lines[0]);
        assert(c3 == match a {
            ActionView::CheckPath(k, p) => with_path(c2, k, resolved_path(p, path_exists(p))),
            _ => c2,
        });
        lemma_read_config_effects(c3, next_skip(skip, lines[0]), lines.drop_first(), path_exists);
        let es = config_effects(skip, lines, path_exists);
        assert(es.drop_first() =~= config_effects(
            next_skip(skip, lines[0]),
            lines.drop_first(),
            path_exists,
        ));
    }
}

proof fn lemma_apply_effects_fields(c: ConfigView, es: Seq<Effect>)
    ensures
        forall|k: NumericKey| #[trigger] number_of(apply_effects(c, es), k) == match last_number(es, k) {
            Some(v) => v,
            None => number_of(c, k),
        },
        forall|k: PathKey| #[trigger] path_of(apply_effects(c, es), k) == match last_path(es, k) {
            Some(p) => p,
            None => path_of(c, k),
        },
    decreases es.len(),
{
    if es.len() > 0 {
        let c2 = apply_effect(c, es[0]);
        lemma_apply_effects_fields(c2, es.drop_first());
        assert forall|k: NumericKey| #[trigger] number_of(apply_effects(c, es), k) == match last_number(
            es,
            k,
        ) {
            Some(v) => v,
            None => number_of(c, k),
        } by {
            assert(number_of(apply_effects(c, es), k) == number_of(apply_effects(c2, es.drop_first()), k));
        }
        assert forall|k: PathKey| #[trigger] path_of(apply_effects(c, es), k) == match last_path(es, k) {
            Some(p) => p,
            None => path_of(c, k),
        } by {
            assert(path_of(apply_effects(c, es), k) == path_of(apply_effects(c2, es.drop_first()), k));
        }
    }
}

proof fn lemma_apply_effects_twice(c: ConfigView, es: Seq<Effect>)
    ensures
        apply_effects(apply_effects(c, es), es) == apply_effects(c, es),
{
    let once = apply_effects(c, es);
    let twice = apply_effects(once, es);
    lemma_apply_effects_fields(c, es);
    lemma_apply_effects_fields(once, es);
    assert(number_of(twice, NumericKey::FSize) == number_of(once, NumericKey::FSize));
    assert(number_of(twice, NumericKey::Startpoint) == number_of(once, NumericKey::Startpoint));
    assert(number_of(twice, NumericKey::Endpoint) == number_of(once, NumericKey::Endpoint));
    assert(number_of(twice, NumericKey::SBlockLocation) == number_of(
        once,
        NumericKey::SBlockLocation,
    ));
    assert(path_of(twice, PathKey::FLocation) == path_of(once, PathKey::FLocation));
    assert(path_of(twice, PathKey::ConfLocation) == path_of(once, PathKey::ConfLocation));
}

/// Reading the same lines a second time, from outside a comment, leaves the
/// settings as the first reading left them, and ends in the same comment
/// state.
pub proof fn lemma_read_lines_twice(c: ConfigView, lines: Seq<Seq<char>>)
    ensures
        read_lines(read_lines(c, false, lines).0, false, lines) == read_lines(c, false, lines),
{
    let once = read_lines(c, false, lines).0;
    lemma_read_lines_effects(c, false, lines);
    lemma_read_lines_effects(once, false, lines);
    lemma_apply_effects_twice(c, number_effects(false, lines));
}

/// Reading a configuration file a second time, with the same answers on
/// which paths exist, leaves the settings as the first reading left them,
/// and ends in the same comment state.
pub proof fn lemma_read_config_twice(
    c: ConfigView,
    lines: Seq<Seq<char>>,
    path_exists: spec_fn(Seq<char>) -> bool,
)
    ensures
        read_config(read_config(c, false, lines, path_exists).0, false, lines, path_exists) == read_config(
            c,
            false,
            lines,
            path_exists,
        ),
{
    let once = read_config(c, false, lines, path_exists).0;
    lemma_read_config_effects(c, false, lines, path_exists);
    lemma_read_config_effects(once, false, lines, path_exists);
    lemma_apply_effects_twice(c, config_effects(false, lines, path_exists));
}

} // verus!
