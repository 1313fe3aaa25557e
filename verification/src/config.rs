//! The daemon's runtime configuration: validating the raw `CARDIGAN_*`
//! values and applying their defaults.

use vstd::prelude::*;
use crate::contact::{ConflictWinner, Side, parse_side_spec};
use crate::text::{decimal, is_digit, join_with, trim};

verus! {

pub const DEFAULT_ICLOUD_URL: &'static str = "https://contacts.icloud.com";
pub const DEFAULT_FASTMAIL_URL: &'static str = "https://carddav.fastmail.com";
pub const DEFAULT_POLL_INTERVAL_SECS: u64 = 120;
pub const MIN_POLL_INTERVAL_SECS: u64 = 60;
pub const DEFAULT_MAX_PHOTO_BYTES: u64 = 1048576;

// ---------------------------------------------------------------------------
// Secrets and endpoints
// ---------------------------------------------------------------------------

/// A credential that must never appear in logs: its debug form is redacted;
/// use `expose` only at the point the value is sent to a server.
#[derive(Clone, PartialEq, Eq)]
pub struct Secret(pub(crate) String);

impl View for Secret {
    type V = Seq<char>;

    open(crate) spec fn view(&self) -> Seq<char> {
        self.0@
    }
}

impl Secret {
    pub fn new(value: String) -> (r: Self)
        ensures
            r@ == value@,
    {
        Secret(value)
    }

    pub fn expose(&self) -> (r: &str)
        ensures
            r@ == self@,
    {
        self.0.as_str()
    }

    /// `Secret([REDACTED])`, the debug form.
    pub fn debug_string(&self) -> (r: String)
        ensures
            r@ == "Secret([REDACTED])"@,
    {
        String::from_str("Secret([REDACTED])")
    }
}

/// Connection settings for one CardDAV endpoint. The URL is the discovery
/// entry point; principal discovery still resolves the real host.
pub struct EndpointConfig {
    pub url: String,
    pub username: String,
    pub password: Secret,
}

/// Raw environment values, before defaults and validation. Every field is a
/// string so that parse failures can name the offending variable.
pub struct RawConfig {
    pub icloud_url: Option<String>,
    pub icloud_username: Option<String>,
    pub icloud_password: Option<String>,
    pub fastmail_url: Option<String>,
    pub fastmail_username: Option<String>,
    pub fastmail_password: Option<String>,
    pub poll_interval_secs: Option<String>,
    pub database_path: Option<String>,
    pub conflict_winner: Option<String>,
    pub max_photo_bytes: Option<String>,
}

/// Validated runtime configuration.
pub struct Config {
    pub icloud: EndpointConfig,
    pub fastmail: EndpointConfig,
    /// Seconds between two sync cycles.
    pub poll_interval_secs: u64,
    pub database_path: String,
    pub conflict_winner: ConflictWinner,
    pub max_photo_bytes: u64,
}

/// Why the configuration is refused.
#[derive(Debug)]
pub enum Error {
    MissingVariables(Vec<&'static str>),
    InvalidValue { variable: &'static str, reason: String },
}

pub open spec fn names(v: Seq<&'static str>) -> Seq<Seq<char>> {
    v.map_values(|s: &'static str| s@)
}

/// The message of a configuration error (its `Display` form).
pub open spec fn config_error_text(e: Error) -> Seq<char> {
    match e {
        Error::MissingVariables(vars) => "missing required environment variable(s): "@
            + join_with(names(vars@), ", "@),
        Error::InvalidValue { variable, reason } => "invalid value for "@ + variable@ + ": "@
            + reason@,
    }
}


impl Error {
    /// The error's message (its `Display` form).
    pub fn to_string(&self) -> (r: String)
        ensures
            r@ == config_error_text(*self),
    {
        match self {
            Error::MissingVariables(vars) => {
                let mut out = String::from_str("missing required environment variable(s): ");
                let joined = crate::text::join_with_exec(vars, ", ");
                out.append(joined.as_str());
                out
            },
            Error::InvalidValue { variable, reason } => {
                let mut out = String::from_str("invalid value for ");
                out.append(variable);
                out.append(": ");
                out.append(reason.as_str());
                out
            },
        }
    }
}

// ---------------------------------------------------------------------------
// Parsing values
// ---------------------------------------------------------------------------

/// Why text is not a `u64` (`ParseIntError`).
#[derive(Debug, Clone, Copy, PartialEq, Eq, Structural)]
pub enum NumberError {
    Empty,
    InvalidDigit,
    PosOverflow,
}

pub open spec fn number_error_text(e: NumberError) -> Seq<char> {
    match e {
        NumberError::Empty => "cannot parse integer from empty string"@,
        NumberError::InvalidDigit => "invalid digit found in string"@,
        NumberError::PosOverflow => "number too large to fit in target type"@,
    }
}

/// The digits `s[i..]` read onto `acc`: the first character that is not a
/// digit, or whose digit does not fit, decides the error.
pub open spec fn digits_from(s: Seq<char>, i: int, acc: int) -> Result<int, NumberError>
    decreases s.len() - i,
{
    if i < 0 || i >= s.len() {
        Ok(acc)
    } else if !is_digit(s[i]) {
        Err(NumberError::InvalidDigit)
    } else if acc * 10 + (s[i] as u32 - 48) > u64::MAX {
        Err(NumberError::PosOverflow)
    } else {
        digits_from(s, i + 1, acc * 10 + (s[i] as u32 - 48))
    }
}

/// `str::parse::<u64>`: an optional `+`, then decimal digits.
pub open spec fn parse_u64_spec(s: Seq<char>) -> Result<int, NumberError> {
    if s.len() == 0 {
        Err(NumberError::Empty)
    } else if s[0] == '+' {
        if s.len() == 1 {
            Err(NumberError::InvalidDigit)
        } else {
            digits_from(s, 1, 0)
        }
    } else {
        digits_from(s, 0, 0)
    }
}

fn number_error_string(e: NumberError) -> (r: String)
    ensures
        r@ == number_error_text(e),
{
    match e {
        NumberError::Empty => String::from_str("cannot parse integer from empty string"),
        NumberError::InvalidDigit => String::from_str("invalid digit found in string"),
        NumberError::PosOverflow => String::from_str("number too large to fit in target type"),
    }
}

/// Parses a `u64` as `str::parse` does.
pub fn parse_u64(s: &[char]) -> (r: Result<u64, NumberError>)
    ensures
        match (r, parse_u64_spec(s@)) {
            (Ok(n), Ok(m)) => n == m,
            (Err(e), Err(f)) => e == f,
            _ => false,
        },
{
    if s.len() == 0 {
        return Err(NumberError::Empty);
    }
    let mut i: usize = 0;
    if s[0] == '+' {
        if s.len() == 1 {
            return Err(NumberError::InvalidDigit);
        }
        i = 1;
    }
    let ghost start = i as int;
    let mut acc: u64 = 0;
    while i < s.len()
        invariant
            start <= i <= s.len(),
            start == 0 || start == 1,
            s.len() > 0,
            start == 1 <==> s@[0] == '+',
            start == 1 ==> s.len() > 1,
            digits_from(s@, i as int, acc as int) == parse_u64_spec(s@),
        decreases s.len() - i,
    {
        let c = s[i];
        if !('0' <= c && c <= '9') {
            return Err(NumberError::InvalidDigit);
        }
        let d: u64 = (c as u32 - 48) as u64;
        if acc > (u64::MAX - d) / 10 {
            assert(acc * 10 + d > u64::MAX) by (nonlinear_arith)
                requires
                    acc > (u64::MAX - d) / 10,
                    d <= 9,
            ;
            return Err(NumberError::PosOverflow);
        }
        assert(acc * 10 + d <= u64::MAX) by (nonlinear_arith)
            requires
                acc <= (u64::MAX - d) / 10,
                d <= 9,
        ;
        acc = acc * 10 + d;
        i += 1;
    }
    Ok(acc)
}

/// Treats unset and blank values alike: `Some` only when the value holds
/// more than white space (the value itself, untrimmed).
pub open spec fn non_empty_spec(value: Option<Seq<char>>) -> Option<Seq<char>> {
    match value {
        Some(v) => if trim(v).len() > 0 {
            Some(v)
        } else {
            None
        },
        None => None,
    }
}

pub open spec fn opt_str(o: Option<String>) -> Option<Seq<char>> {
    match o {
        Some(s) => Some(s@),
        None => None,
    }
}

/// Treats unset and blank values alike.
pub fn non_empty(value: Option<String>) -> (r: Option<String>)
    ensures
        opt_str(r) == non_empty_spec(opt_str(value)),
{
    match value {
        Some(v) => {
            let c = crate::text::chars_of(v.as_str());
            let t = crate::text::trim_vec(&c);
            if t.len() > 0 {
                Some(v)
            } else {
                None
            }
        },
        None => None,
    }
}

/// An optional number: the default when unset or blank, else the trimmed
/// value parsed, or the reason it does not parse.
pub open spec fn number_or_spec(value: Option<Seq<char>>, default: u64) -> Result<int, Seq<char>> {
    match non_empty_spec(value) {
        None => Ok(default as int),
        Some(v) => match parse_u64_spec(trim(v)) {
            Ok(n) => Ok(n),
            Err(e) => Err(number_error_text(e)),
        },
    }
}

/// An optional side: the default when unset or blank, else the trimmed
/// value parsed, or the reason it does not parse.
pub open spec fn side_or_spec(value: Option<Seq<char>>, default: Side) -> Result<Side, Seq<char>> {
    match non_empty_spec(value) {
        None => Ok(default),
        Some(v) => match parse_side_spec(trim(v)) {
            Some(side) => Ok(side),
            None => Err("expected `icloud` or `fastmail`, got `"@ + trim(v) + "`"@),
        },
    }
}

/// Parses an optional number, falling back to `default` when unset.
fn parse_u64_or(value: Option<String>, variable: &'static str, default: u64) -> (r: Result<
    u64,
    Error,
>)
    ensures
        match (r, number_or_spec(opt_str(value), default)) {
            (Ok(n), Ok(m)) => n == m,
            (Err(Error::InvalidValue { variable: v, reason }), Err(t)) => v == variable && reason@
                == t,
            _ => false,
        },
{
    match non_empty(value) {
        None => Ok(default),
        Some(v) => {
            let c = crate::text::chars_of(v.as_str());
            let t = crate::text::trim_vec(&c);
            match parse_u64(&t) {
                Ok(n) => Ok(n),
                Err(e) => Err(Error::InvalidValue { variable, reason: number_error_string(e) }),
            }
        },
    }
}

/// Parses an optional side, falling back to `default` when unset.
fn parse_side_or(value: Option<String>, variable: &'static str, default: Side) -> (r: Result<
    Side,
    Error,
>)
    ensures
        match (r, side_or_spec(opt_str(value), default)) {
            (Ok(n), Ok(m)) => n == m,
            (Err(Error::InvalidValue { variable: v, reason }), Err(t)) => v == variable && reason@
                == t,
            _ => false,
        },
{
    match non_empty(value) {
        None => Ok(default),
        Some(v) => {
            let c = crate::text::chars_of(v.as_str());
            let t = crate::text::trim_vec(&c);
            let ts = crate::text::string_of(&t);
            match Side::parse(ts.as_str()) {
                Ok(side) => Ok(side),
                Err(m) => Err(Error::InvalidValue { variable, reason: m }),
            }
        },
    }
}


// ---------------------------------------------------------------------------
// Validation
// ---------------------------------------------------------------------------

/// A configuration as values.
pub struct ConfigView {
    pub icloud_url: Seq<char>,
    pub icloud_username: Seq<char>,
    pub icloud_password: Seq<char>,
    pub fastmail_url: Seq<char>,
    pub fastmail_username: Seq<char>,
    pub fastmail_password: Seq<char>,
    pub poll_interval_secs: int,
    pub database_path: Seq<char>,
    pub conflict_winner: Side,
    pub max_photo_bytes: int,
}

/// A configuration error as values.
pub enum ConfigErrorView {
    MissingVariables(Seq<Seq<char>>),
    InvalidValue(Seq<char>, Seq<char>),
}

pub open spec fn config_view(c: Config) -> ConfigView {
    ConfigView {
        icloud_url: c.icloud.url@,
        icloud_username: c.icloud.username@,
        icloud_password: c.icloud.password@,
        fastmail_url: c.fastmail.url@,
        fastmail_username: c.fastmail.username@,
        fastmail_password: c.fastmail.password@,
        poll_interval_secs: c.poll_interval_secs as int,
        database_path: c.database_path@,
        conflict_winner: c.conflict_winner,
        max_photo_bytes: c.max_photo_bytes as int,
    }
}

pub open spec fn config_error_view(e: Error) -> ConfigErrorView {
    match e {
        Error::MissingVariables(vars) => ConfigErrorView::MissingVariables(names(vars@)),
        Error::InvalidValue { variable, reason } => ConfigErrorView::InvalidValue(
            variable@,
            reason@,
        ),
    }
}

/// A required value: the value when set and not blank, else empty.
pub open spec fn required_value(value: Option<String>) -> Seq<char> {
    match non_empty_spec(opt_str(value)) {
        Some(v) => v,
        None => seq![],
    }
}

/// `l` with `name` added when `value` is unset or blank.
pub open spec fn note_missing(l: Seq<Seq<char>>, value: Option<String>, name: Seq<char>) -> Seq<
    Seq<char>,
> {
    if non_empty_spec(opt_str(value)) is None {
        l.push(name)
    } else {
        l
    }
}

/// The required variables that are unset or blank, in order.
pub open spec fn missing_required(raw: RawConfig) -> Seq<Seq<char>> {
    let l1 = note_missing(seq![], raw.icloud_username, "CARDIGAN_ICLOUD_USERNAME"@);
    let l2 = note_missing(l1, raw.icloud_password, "CARDIGAN_ICLOUD_PASSWORD"@);
    let l3 = note_missing(l2, raw.fastmail_username, "CARDIGAN_FASTMAIL_USERNAME"@);
    let l4 = note_missing(l3, raw.fastmail_password, "CARDIGAN_FASTMAIL_PASSWORD"@);
    note_missing(l4, raw.database_path, "CARDIGAN_DATABASE_PATH"@)
}

/// An optional URL: the value when set and not blank, else `default`.
pub open spec fn url_or(value: Option<String>, default: Seq<char>) -> Seq<char> {
    match non_empty_spec(opt_str(value)) {
        Some(v) => v,
        None => default,
    }
}

/// Whether an optional variable is unset or holds only white space.
pub open spec fn is_blank(value: Option<String>) -> bool {
    match value {
        None => true,
        Some(s) => trim(s@).len() == 0,
    }
}

/// An optional URL variable that is unset or only white space gives the
/// default; one that holds more is taken as written.
pub proof fn lemma_blank_url_gives_default(value: Option<String>, default: Seq<char>)
    ensures
        is_blank(value) ==> url_or(value, default) == default,
        match value {
            Some(s) => trim(s@).len() > 0 ==> url_or(value, default) == s@,
            None => true,
        },
{
}

/// A valid configuration has the default server URLs wherever the URL
/// variables are unset or blank, and the given URLs elsewhere.
pub proof fn lemma_config_urls(raw: RawConfig)
    ensures
        match config_spec(raw) {
            Ok(c) => {
                &&& is_blank(raw.icloud_url) ==> c.icloud_url == DEFAULT_ICLOUD_URL@
                &&& is_blank(raw.fastmail_url) ==> c.fastmail_url == DEFAULT_FASTMAIL_URL@
                &&& (match raw.icloud_url {
                    Some(s) => !is_blank(raw.icloud_url) ==> c.icloud_url == s@,
                    None => true,
                })
                &&& (match raw.fastmail_url {
                    Some(s) => !is_blank(raw.fastmail_url) ==> c.fastmail_url == s@,
                    None => true,
                })
            },
            Err(_) => true,
        },
{
    lemma_blank_url_gives_default(raw.icloud_url, DEFAULT_ICLOUD_URL@);
    lemma_blank_url_gives_default(raw.fastmail_url, DEFAULT_FASTMAIL_URL@);
}

/// What a raw configuration validates to: every missing required variable
/// named at once; then the poll interval (at least `MIN_POLL_INTERVAL_SECS`),
/// the conflict winner and the photo limit, in that order, each defaulted
/// when unset.
pub open spec fn config_spec(raw: RawConfig) -> Result<ConfigView, ConfigErrorView> {
    let missing = missing_required(raw);
    if missing.len() > 0 {
        Err(ConfigErrorView::MissingVariables(missing))
    } else {
        match number_or_spec(opt_str(raw.poll_interval_secs), DEFAULT_POLL_INTERVAL_SECS) {
            Err(t) => Err(ConfigErrorView::InvalidValue("CARDIGAN_POLL_INTERVAL_SECS"@, t)),
            Ok(poll) => if poll < MIN_POLL_INTERVAL_SECS {
                Err(
                    ConfigErrorView::InvalidValue(
                        "CARDIGAN_POLL_INTERVAL_SECS"@,
                        "must be at least "@ + decimal(MIN_POLL_INTERVAL_SECS as nat)
                            + " seconds, got "@ + decimal(poll as nat),
                    ),
                )
            } else {
                match side_or_spec(opt_str(raw.conflict_winner), Side::ICloud) {
                    Err(t) => Err(ConfigErrorView::InvalidValue("CARDIGAN_CONFLICT_WINNER"@, t)),
                    Ok(winner) => match number_or_spec(
                        opt_str(raw.max_photo_bytes),
                        DEFAULT_MAX_PHOTO_BYTES,
                    ) {
                        Err(t) => Err(ConfigErrorView::InvalidValue("CARDIGAN_MAX_PHOTO_BYTES"@, t)),
                        Ok(max) => Ok(
                            ConfigView {
                                icloud_url: url_or(raw.icloud_url, DEFAULT_ICLOUD_URL@),
                                icloud_username: required_value(raw.icloud_username),
                                icloud_password: required_value(raw.icloud_password),
                                fastmail_url: url_or(raw.fastmail_url, DEFAULT_FASTMAIL_URL@),
                                fastmail_username: required_value(raw.fastmail_username),
                                fastmail_password: required_value(raw.fastmail_password),
                                poll_interval_secs: poll,
                                database_path: required_value(raw.database_path),
                                conflict_winner: winner,
                                max_photo_bytes: max,
                            },
                        ),
                    },
                }
            },
        }
    }
}

/// The value of a required variable, noting it in `missing` when unset or
/// blank.
fn required(value: Option<String>, variable: &'static str, missing: &mut Vec<&'static str>) -> (r:
    String)
    ensures
        r@ == required_value(value),
        names(final(missing)@) == note_missing(names(old(missing)@), value, variable@),
{
    let ghost v = value;
    match non_empty(value) {
        Some(s) => s,
        None => {
            let ghost before = names(missing@);
            missing.push(variable);
            assert(names(missing@) =~= before.push(variable@));
            String::new()
        },
    }
}

fn url_or_default(value: Option<String>, default: &'static str) -> (r: String)
    ensures
        r@ == url_or(value, default@),
{
    match non_empty(value) {
        Some(s) => s,
        None => String::from_str(default),
    }
}

impl Config {
    /// Validates raw values and applies the defaults.
    pub fn try_from(raw: RawConfig) -> (r: Result<Config, Error>)
        ensures
            match (r, config_spec(raw)) {
                (Ok(c), Ok(v)) => config_view(c) == v,
                (Err(e), Err(v)) => config_error_view(e) == v,
                _ => false,
            },
    {
        let ghost raw0 = raw;
        let RawConfig {
            icloud_url,
            icloud_username,
            icloud_password,
            fastmail_url,
            fastmail_username,
            fastmail_password,
            poll_interval_secs,
            database_path,
            conflict_winner,
            max_photo_bytes,
        } = raw;
        let mut missing: Vec<&'static str> = Vec::new();
        assert(names(missing@) =~= Seq::<Seq<char>>::empty());
        let icloud_username = required(icloud_username, "CARDIGAN_ICLOUD_USERNAME", &mut missing);
        let icloud_password = required(icloud_password, "CARDIGAN_ICLOUD_PASSWORD", &mut missing);
        let fastmail_username = required(
            fastmail_username,
            "CARDIGAN_FASTMAIL_USERNAME",
            &mut missing,
        );
        let fastmail_password = required(
            fastmail_password,
            "CARDIGAN_FASTMAIL_PASSWORD",
            &mut missing,
        );
        let database_path = required(database_path, "CARDIGAN_DATABASE_PATH", &mut missing);
        assert(names(missing@) == missing_required(raw0));
        if missing.len() > 0 {
            return Err(Error::MissingVariables(missing));
        }
        let poll = match parse_u64_or(
            poll_interval_secs,
            "CARDIGAN_POLL_INTERVAL_SECS",
            DEFAULT_POLL_INTERVAL_SECS,
        ) {
            Ok(p) => p,
            Err(e) => {
                return Err(e);
            },
        };
        if poll < MIN_POLL_INTERVAL_SECS {
            let mut reason = String::from_str("must be at least ");
            let min = crate::text::decimal_chars(MIN_POLL_INTERVAL_SECS);
            reason.append(crate::text::string_of(&min).as_str());
            reason.append(" seconds, got ");
            let got = crate::text::decimal_chars(poll);
            reason.append(crate::text::string_of(&got).as_str());
            return Err(Error::InvalidValue { variable: "CARDIGAN_POLL_INTERVAL_SECS", reason });
        }
        let winner = match parse_side_or(conflict_winner, "CARDIGAN_CONFLICT_WINNER", Side::ICloud) {
            Ok(w) => w,
            Err(e) => {
                return Err(e);
            },
        };
        let max = match parse_u64_or(
            max_photo_bytes,
            "CARDIGAN_MAX_PHOTO_BYTES",
            DEFAULT_MAX_PHOTO_BYTES,
        ) {
            Ok(m) => m,
            Err(e) => {
                return Err(e);
            },
        };
        Ok(
            Config {
                icloud: EndpointConfig {
                    url: url_or_default(icloud_url, DEFAULT_ICLOUD_URL),
                    username: icloud_username,
                    password: Secret::new(icloud_password),
                },
                fastmail: EndpointConfig {
                    url: url_or_default(fastmail_url, DEFAULT_FASTMAIL_URL),
                    username: fastmail_username,
                    password: Secret::new(fastmail_password),
                },
                poll_interval_secs: poll,
                database_path,
                conflict_winner: winner,
                max_photo_bytes: max,
            },
        )
    }
}


proof fn lemma_digits_push(s: Seq<char>, c: char, i: int, acc: int, m: int)
    requires
        0 <= i <= s.len(),
        digits_from(s, i, acc) == Ok::<int, NumberError>(m),
        is_digit(c),
        m * 10 + (c as u32 - 48) <= u64::MAX,
        0 <= acc,
    ensures
        digits_from(s.push(c), i, acc) == Ok::<int, NumberError>(m * 10 + (c as u32 - 48)),
    decreases s.len() - i,
{
    let t = s.push(c);
    if i == s.len() {
        assert(t[i] == c);
        assert(m == acc);
        let v = acc * 10 + (c as u32 - 48);
        assert(digits_from(t, i + 1, v) == Ok::<int, NumberError>(v));
    } else {
        assert(t[i] == s[i]);
        let next = acc * 10 + (s[i] as u32 - 48);
        assert(is_digit(s[i]));
        assert(next <= u64::MAX);
        assert(digits_from(s, i + 1, next) == Ok::<int, NumberError>(m));
        assert(next >= 0);
        lemma_digits_push(s, c, i + 1, next, m);
        assert(digits_from(t, i, acc) == digits_from(t, i + 1, next));
    }
}

proof fn lemma_digit_char(d: nat)
    requires
        d < 10,
    ensures
        is_digit(crate::text::digit_char(d)),
        (crate::text::digit_char(d) as u32 - 48) == d,
{
    let c = crate::text::digit_char(d);
    vstd::utf8::char_u32_cast(c, (d + 48) as u32);
    assert(c as u32 == d + 48) by {
        assert(((d + 48) as u32) as char == c);
    }
}

/// Reading back the decimal form of a number gives the number.
pub proof fn lemma_parse_decimal(n: nat)
    requires
        n <= u64::MAX,
    ensures
        parse_u64_spec(decimal(n)) == Ok::<int, NumberError>(n as int),
        decimal(n).len() > 0,
        is_digit(decimal(n)[0]),
    decreases n,
{
    lemma_digits_decimal(n);
}

proof fn lemma_digits_decimal(n: nat)
    requires
        n <= u64::MAX,
    ensures
        digits_from(decimal(n), 0, 0) == Ok::<int, NumberError>(n as int),
        decimal(n).len() > 0,
        is_digit(decimal(n)[0]),
        parse_u64_spec(decimal(n)) == Ok::<int, NumberError>(n as int),
    decreases n,
{
    if n < 10 {
        lemma_digit_char(n);
        let s = decimal(n);
        assert(digits_from(s, 1, n as int) == Ok::<int, NumberError>(n as int));
    } else {
        lemma_digits_decimal(n / 10);
        lemma_digit_char(n % 10);
        lemma_digits_push(decimal(n / 10), crate::text::digit_char(n % 10), 0, 0, (n / 10) as int);
        assert(decimal(n)[0] == decimal(n / 10)[0]);
    }
}


/// `path` joined with the file name `cardigan.db` (`Path::join` on Unix:
/// a separator is added unless the path is empty or already ends in one).
pub open spec fn database_file(path: Seq<char>) -> Seq<char> {
    if path.len() == 0 {
        "cardigan.db"@
    } else if path.last() == '/' {
        path + "cardigan.db"@
    } else {
        path + "/cardigan.db"@
    }
}

/// The SQLite URL for the state database inside `path`, given whether
/// `path` is an existing directory: paths holding `?` or `%` cannot be
/// written in the URL; the directory must exist.
pub open spec fn database_url_spec(path: Seq<char>, is_directory: bool) -> Result<Seq<char>, Seq<char>> {
    if path.contains('?') || path.contains('%') {
        Err(path + " contains '?' or '%', which the SQLite URL cannot represent"@)
    } else if !is_directory {
        Err(path + " is not an existing directory"@)
    } else {
        Ok("sqlite://"@ + database_file(path) + "?mode=rwc"@)
    }
}

impl Config {
    /// SQLite URL for the state database inside `database_path`, which the
    /// caller has found to be (or not to be) an existing directory. The file
    /// is created on first open.
    pub fn database_url(&self, is_directory: bool) -> (r: Result<String, Error>)
        ensures
            match (r, database_url_spec(self.database_path@, is_directory)) {
                (Ok(u), Ok(v)) => u@ == v,
                (Err(Error::InvalidValue { variable, reason }), Err(t)) => variable@
                    == "CARDIGAN_DATABASE_PATH"@ && reason@ == t,
                _ => false,
            },
    {
        let path = crate::text::chars_of(self.database_path.as_str());
        let mut special = false;
        let mut i: usize = 0;
        while i < path.len()
            invariant
                i <= path.len(),
                special == exists|k: int| 0 <= k < i && (path@[k] == '?' || path@[k] == '%'),
            decreases path.len() - i,
        {
            if path[i] == '?' || path[i] == '%' {
                special = true;
            }
            i += 1;
        }
        assert(special == (path@.contains('?') || path@.contains('%')));
        if special {
            let mut reason = self.database_path.clone();
            reason.append(" contains '?' or '%', which the SQLite URL cannot represent");
            return Err(Error::InvalidValue { variable: "CARDIGAN_DATABASE_PATH", reason });
        }
        if !is_directory {
            let mut reason = self.database_path.clone();
            reason.append(" is not an existing directory");
            return Err(Error::InvalidValue { variable: "CARDIGAN_DATABASE_PATH", reason });
        }
        let mut url = String::from_str("sqlite://");
        url.append(self.database_path.as_str());
        if path.len() == 0 {
            url.append("cardigan.db");
        } else if path[path.len() - 1] == '/' {
            url.append("cardigan.db");
        } else {
            url.append("/cardigan.db");
        }
        url.append("?mode=rwc");
        Ok(url)
    }
}

} // verus!
