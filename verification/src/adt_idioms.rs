//! Small algebraic-data-type idioms: a validated newtype, a closed set of
//! commands parsed from a line, typed errors, and a one-pass summary.
use vstd::prelude::*;
use crate::text::{chars_of, decimal, decimal_string, matches_lit, next_word, next_word_exec, parse_u32, parse_u32_exec, string_from};

verus! {

/// A GPU count that is validated at construction: always in `1..=64`.
#[derive(Debug, Clone, Copy, PartialEq, Eq, Hash)]
pub struct GpuCount(u32);

/// Why a raw GPU count was rejected: it carries the rejected value.
#[derive(Debug, Clone, Copy, PartialEq, Eq)]
pub struct GpuCountError(pub u32);

impl GpuCount {
    pub const MIN: u32 = 1;

    pub const MAX: u32 = 64;

    #[verifier::type_invariant]
    spec fn in_range(self) -> bool {
        1 <= self.0 <= 64
    }

    /// The count held.
    pub closed spec fn count(self) -> u32 {
        self.0
    }

    /// Validate a raw count: `Ok` exactly when `value` is in `1..=64`.
    pub fn new(value: u32) -> (r: Result<Self, GpuCountError>)
        ensures
            match r {
                Ok(g) => 1 <= value <= 64 && g.count() == value,
                Err(e) => !(1 <= value <= 64) && e.0 == value,
            },
    {
        if Self::MIN <= value && value <= Self::MAX {
            Ok(GpuCount(value))
        } else {
            Err(GpuCountError(value))
        }
    }

    pub fn get(self) -> (r: u32)
        ensures
            r == self.count(),
            1 <= r <= 64,
    {
        proof {
            use_type_invariant(&self);
        }
        self.0
    }

    /// Same as `new`, under the name of the conversion trait.
    pub fn try_from(value: u32) -> (r: Result<Self, GpuCountError>)
        ensures
            match r {
                Ok(g) => 1 <= value <= 64 && g.count() == value,
                Err(e) => !(1 <= value <= 64) && e.0 == value,
            },
    {
        Self::new(value)
    }
}

impl From<GpuCount> for u32 {
    fn from(count: GpuCount) -> (r: u32) {
        count.0
    }
}

impl vstd::std_specs::convert::FromSpecImpl<GpuCount> for u32 {
    open spec fn obeys_from_spec() -> bool {
        true
    }

    open spec fn from_spec(v: GpuCount) -> u32 {
        v.count()
    }
}

impl GpuCountError {
    /// The human-readable reason, e.g. `gpu count 99 is outside 1..=64`.
    pub fn to_string(&self) -> (s: String)
        ensures
            s@ == "gpu count "@ + decimal(self.0 as nat) + " is outside 1..=64"@,
    {
        let mut s = String::from_str("gpu count ");
        let n = decimal_string(self.0 as u128);
        s.append(n.as_str());
        s.append(" is outside 1..=64");
        s
    }
}

/// A closed set of commands, each carrying exactly the data it needs.
#[derive(Debug, Clone, PartialEq, Eq)]
pub enum Command {
    List,
    Get { id: String },
    Create { name: String, gpus: GpuCount },
    Delete { id: String },
}

/// A typed parse failure, so callers can distinguish the cases.
#[derive(Debug, Clone, PartialEq, Eq)]
pub enum CommandError {
    Empty,
    UnknownVerb(String),
    MissingArgument(&'static str),
    InvalidGpuCount(String),
}

/// `r` is the outcome of parsing the line `s`: its first white-space separated
/// word is the verb, and the words after it are the arguments that verb needs
/// (words beyond those are ignored).
pub open spec fn parsed_as(s: Seq<char>, r: Result<Command, CommandError>) -> bool {
    match next_word(s, 0) {
        None => r matches Err(CommandError::Empty),
        Some((a, b)) => {
            let verb = s.subrange(a, b);
            if verb == "list"@ {
                r matches Ok(Command::List)
            } else if verb == "get"@ || verb == "delete"@ {
                match next_word(s, b) {
                    None => r matches Err(CommandError::MissingArgument(n)) && n@ == "id"@,
                    Some((c, d)) => if verb == "get"@ {
                        r matches Ok(Command::Get { id }) && id@ == s.subrange(c, d)
                    } else {
                        r matches Ok(Command::Delete { id }) && id@ == s.subrange(c, d)
                    },
                }
            } else if verb == "create"@ {
                match next_word(s, b) {
                    None => r matches Err(CommandError::MissingArgument(n)) && n@ == "name"@,
                    Some((c, d)) => match next_word(s, d) {
                        None => r matches Err(CommandError::MissingArgument(n)) && n@
                            == "gpu count"@,
                        Some((e, f)) => {
                            let raw = s.subrange(e, f);
                            match parse_u32(raw) {
                                Some(n) if 1 <= n <= 64 => r matches Ok(
                                    Command::Create { name, gpus },
                                ) && name@ == s.subrange(c, d) && gpus.count() == n,
                                _ => r matches Err(CommandError::InvalidGpuCount(x)) && x@
                                    == raw,
                            }
                        },
                    },
                }
            } else {
                r matches Err(CommandError::UnknownVerb(x)) && x@ == verb
            }
        },
    }
}

impl Command {
    /// Parse one command line.
    pub fn parse(line: &str) -> (r: Result<Self, CommandError>)
        ensures
            parsed_as(line@, r),
    {
        let v = chars_of(line);
        let Some((a, b)) = next_word_exec(&v, 0) else {
            return Err(CommandError::Empty);
        };
        if matches_lit(&v, a, b, "list") {
            return Ok(Command::List);
        }
        let is_get = matches_lit(&v, a, b, "get");
        let is_delete = matches_lit(&v, a, b, "delete");
        if is_get || is_delete {
            let Some((c, d)) = next_word_exec(&v, b) else {
                return Err(CommandError::MissingArgument("id"));
            };
            let id = string_from(&v, c, d);
            if is_get {
                return Ok(Command::Get { id });
            } else {
                return Ok(Command::Delete { id });
            }
        }
        if matches_lit(&v, a, b, "create") {
            let Some((c, d)) = next_word_exec(&v, b) else {
                return Err(CommandError::MissingArgument("name"));
            };
            let Some((e, f)) = next_word_exec(&v, d) else {
                return Err(CommandError::MissingArgument("gpu count"));
            };
            let name = string_from(&v, c, d);
            let value = match parse_u32_exec(&v, e, f) {
                Some(value) => value,
                None => return Err(CommandError::InvalidGpuCount(string_from(&v, e, f))),
            };
            return match GpuCount::new(value) {
                Ok(gpus) => Ok(Command::Create { name, gpus }),
                Err(_) => Err(CommandError::InvalidGpuCount(string_from(&v, e, f))),
            };
        }
        Err(CommandError::UnknownVerb(string_from(&v, a, b)))
    }

    /// The verb that names this command.
    pub fn verb(&self) -> (r: &'static str)
        ensures
            r@ == match self {
                Command::List => "list"@,
                Command::Get { .. } => "get"@,
                Command::Create { .. } => "create"@,
                Command::Delete { .. } => "delete"@,
            },
    {
        match self {
            Command::List => "list",
            Command::Get { .. } => "get",
            Command::Create { .. } => "create",
            Command::Delete { .. } => "delete",
        }
    }
}

/// Trusted: `format!("{:?}", s)`, the `Debug` rendering of a string (quoted
/// and escaped). Which escapes it uses is left to `debug_rendering`.
#[verifier::external_body]
pub(crate) fn debug_str(s: &str) -> (r: String)
    ensures
        r@ == debug_rendering(s@),
{
    format!("{:?}", s)
}

/// The `Debug` rendering of a string, as `format!("{:?}", ..)` produces it.
pub uninterp spec fn debug_rendering(s: Seq<char>) -> Seq<char>;

impl CommandError {
    /// The human-readable reason for the failure.
    pub fn to_string(&self) -> (s: String)
        ensures
            s@ == match self {
                CommandError::Empty => "empty command"@,
                CommandError::UnknownVerb(v) => "unknown verb "@ + debug_rendering(v@),
                CommandError::MissingArgument(n) => "missing argument: "@ + n@,
                CommandError::InvalidGpuCount(raw) => "invalid gpu count: "@ + debug_rendering(
                    raw@,
                ),
            },
    {
        match self {
            CommandError::Empty => String::from_str("empty command"),
            CommandError::UnknownVerb(verb) => {
                let mut s = String::from_str("unknown verb ");
                let d = debug_str(verb.as_str());
                s.append(d.as_str());
                s
            },
            CommandError::MissingArgument(name) => {
                let mut s = String::from_str("missing argument: ");
                s.append(name);
                s
            },
            CommandError::InvalidGpuCount(raw) => {
                let mut s = String::from_str("invalid gpu count: ");
                let d = debug_str(raw.as_str());
                s.append(d.as_str());
                s
            },
        }
    }
}

/// Sum of `values`, as a mathematical integer.
pub open spec fn sum_i32(values: Seq<i32>) -> int
    decreases values.len(),
{
    if values.len() == 0 {
        0
    } else {
        sum_i32(values.drop_last()) + values.last() as int
    }
}

/// Count and sum in one pass. The sum is an `i64`, which holds the sum of any
/// slice of fewer than 2^32 values.
pub fn summarize(values: &[i32]) -> (r: (usize, i64))
    requires
        forall|k: int|
            0 <= k <= values@.len() ==> i64::MIN <= #[trigger] sum_i32(values@.take(k))
                <= i64::MAX,
    ensures
        r.0 == values@.len(),
        r.1 == sum_i32(values@),
{
    let mut count: usize = 0;
    let mut sum: i64 = 0;
    while count < values.len()
        invariant
            count <= values@.len(),
            sum == sum_i32(values@.take(count as int)),
            forall|k: int|
                0 <= k <= values@.len() ==> i64::MIN <= #[trigger] sum_i32(values@.take(k))
                    <= i64::MAX,
        decreases values@.len() - count,
    {
        assert(values@.take(count + 1).drop_last() =~= values@.take(count as int));
        assert(sum_i32(values@.take(count + 1)) <= i64::MAX);
        sum = sum + values[count] as i64;
        count = count + 1;
    }
    assert(values@.take(count as int) =~= values@);
    (count, sum)
}

} // verus!
