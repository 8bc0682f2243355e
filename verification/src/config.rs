//! Applying one keyed update to the configuration record: the mode, the
//! offline flag, or the API key. Values for the mode and the flag are
//! matched case-insensitively (ASCII).

use vstd::prelude::*;

use crate::model::{Config, ConfigView, Mode};
use crate::text::{chars_to_string, to_chars};

verus! {

/// The ASCII lowercase of one character.
pub open spec fn lower_char(c: char) -> char {
    if c == 'Z' {
        'z'
    } else if c == 'A' {
        'a'
    } else if c == 'B' {
        'b'
    } else if c == 'C' {
        'c'
    } else if c == 'D' {
        'd'
    } else if c == 'E' {
        'e'
    } else if c == 'F' {
        'f'
    } else if c == 'G' {
        'g'
    } else if c == 'H' {
        'h'
    } else if c == 'I' {
        'i'
    } else if c == 'J' {
        'j'
    } else if c == 'K' {
        'k'
    } else if c == 'L' {
        'l'
    } else if c == 'M' {
        'm'
    } else if c == 'N' {
        'n'
    } else if c == 'O' {
        'o'
    } else if c == 'P' {
        'p'
    } else if c == 'Q' {
        'q'
    } else if c == 'R' {
        'r'
    } else if c == 'S' {
        's'
    } else if c == 'T' {
        't'
    } else if c == 'U' {
        'u'
    } else if c == 'V' {
        'v'
    } else if c == 'W' {
        'w'
    } else if c == 'X' {
        'x'
    } else if c == 'Y' {
        'y'
    } else if c == 'Z' {
        'z'
    } else {
        c
    }
}

/// The ASCII lowercase of a text.
pub open spec fn lower_seq(s: Seq<char>) -> Seq<char> {
    Seq::new(s.len(), |i: int| lower_char(s[i]))
}

/// Lowercases one character (ASCII).
fn lower_char_exec(c: char) -> (r: char)
    ensures
        r == lower_char(c),
{
    if c == 'Z' {
        'z'
    } else if c == 'A' {
        'a'
    } else if c == 'B' {
        'b'
    } else if c == 'C' {
        'c'
    } else if c == 'D' {
        'd'
    } else if c == 'E' {
        'e'
    } else if c == 'F' {
        'f'
    } else if c == 'G' {
        'g'
    } else if c == 'H' {
        'h'
    } else if c == 'I' {
        'i'
    } else if c == 'J' {
        'j'
    } else if c == 'K' {
        'k'
    } else if c == 'L' {
        'l'
    } else if c == 'M' {
        'm'
    } else if c == 'N' {
        'n'
    } else if c == 'O' {
        'o'
    } else if c == 'P' {
        'p'
    } else if c == 'Q' {
        'q'
    } else if c == 'R' {
        'r'
    } else if c == 'S' {
        's'
    } else if c == 'T' {
        't'
    } else if c == 'U' {
        'u'
    } else if c == 'V' {
        'v'
    } else if c == 'W' {
        'w'
    } else if c == 'X' {
        'x'
    } else if c == 'Y' {
        'y'
    } else if c == 'Z' {
        'z'
    } else {
        c
    }
}

/// Lowercases a text (ASCII).
pub fn to_lower(s: &str) -> (r: String)
    ensures
        r@ == lower_seq(s@),
{
    let chars = to_chars(s);
    let mut out: Vec<char> = Vec::new();
    let mut i: usize = 0;
    while i < chars.len()
        invariant
            i <= chars@.len(),
            chars@ == s@,
            out@.len() == i,
            forall|j: int| 0 <= j < i ==> #[trigger] out@[j] == lower_char(s@[j]),
        decreases chars@.len() - i,
    {
        out.push(lower_char_exec(chars[i]));
        i = i + 1;
    }
    proof {
        assert(out@ =~= lower_seq(s@));
    }
    chars_to_string(&out)
}

/// Why a configuration update was refused.
#[derive(Clone, Copy, Debug, PartialEq, Eq, Structural)]
pub enum ConfigError {
    /// A mode value other than `stack` or `queue`.
    BadMode,
    /// An offline value other than `true` or `false`.
    BadOffline,
    /// A key other than `mode`, `offline` or `youtube_api_key`.
    UnknownKey,
}

/// What one keyed update does to a configuration: sets the mode (to
/// `stack` or `queue`), the offline flag (to `true` or `false`), or the
/// API key (to any value); refuses anything else and leaves the
/// configuration as it was.
pub open spec fn update_spec(c: ConfigView, key: Seq<char>, value: Seq<char>) -> Result<
    ConfigView,
    ConfigError,
> {
    if key == "mode"@ {
        if lower_seq(value) == "stack"@ {
            Ok(ConfigView { mode: Mode::Stack, ..c })
        } else if lower_seq(value) == "queue"@ {
            Ok(ConfigView { mode: Mode::Queue, ..c })
        } else {
            Err(ConfigError::BadMode)
        }
    } else if key == "offline"@ {
        if lower_seq(value) == "true"@ {
            Ok(ConfigView { offline: true, ..c })
        } else if lower_seq(value) == "false"@ {
            Ok(ConfigView { offline: false, ..c })
        } else {
            Err(ConfigError::BadOffline)
        }
    } else if key == "youtube_api_key"@ {
        Ok(ConfigView { youtube_api_key: Some(value), ..c })
    } else {
        Err(ConfigError::UnknownKey)
    }
}

/// Applies one keyed update to the configuration; on a refused key or
/// value the configuration is handed back unchanged beside the error.
pub fn apply_config_update(cfg: Config, key: &str, value: &str) -> (r: Result<Config, ConfigError>)
    ensures
        match r {
            Ok(c) => update_spec(cfg@, key@, value@) == Ok::<ConfigView, ConfigError>(c@),
            Err(e) => update_spec(cfg@, key@, value@) == Err::<ConfigView, ConfigError>(e),
        },
{
    let mut cfg = cfg;
    if key.eq("mode") {
        let low = to_lower(value);
        if low.as_str().eq("stack") {
            cfg.mode = Mode::Stack;
            Ok(cfg)
        } else if low.as_str().eq("queue") {
            cfg.mode = Mode::Queue;
            Ok(cfg)
        } else {
            Err(ConfigError::BadMode)
        }
    } else if key.eq("offline") {
        let low = to_lower(value);
        if low.as_str().eq("true") {
            cfg.offline = true;
            Ok(cfg)
        } else if low.as_str().eq("false") {
            cfg.offline = false;
            Ok(cfg)
        } else {
            Err(ConfigError::BadOffline)
        }
    } else if key.eq("youtube_api_key") {
        cfg.youtube_api_key = Some(value.to_owned());
        Ok(cfg)
    } else {
        Err(ConfigError::UnknownKey)
    }
}

} // verus!
