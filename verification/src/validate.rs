//! Identifier validation for profile names and variable keys.

use vstd::prelude::*;

use crate::models::chars_of;

verus! {

/// Why an identifier was rejected.
#[derive(Debug, Clone, PartialEq, Eq)]
pub enum IdentifierError {
    /// The identifier is empty.
    Empty,
    /// The identifier starts with a digit.
    StartsWithDigit,
    /// The identifier holds a character outside the allowed set.
    InvalidCharacter(char),
    /// A lowercase letter where all uppercase is required.
    ContainsLowercase,
}

/// What counts as a valid identifier.
#[derive(Debug, Clone)]
pub struct ValidationConfig {
    /// Whether every letter must be uppercase.
    pub require_uppercase: bool,
    /// Whether a leading underscore is allowed.
    pub allow_leading_underscore: bool,
    /// Characters allowed besides letters, digits and underscores.
    pub additional_allowed_chars: Vec<char>,
}

pub open spec fn is_ascii_digit_char(c: char) -> bool {
    48 <= c as u32 <= 57
}

pub open spec fn is_ascii_upper_char(c: char) -> bool {
    65 <= c as u32 <= 90
}

pub open spec fn is_ascii_lower_char(c: char) -> bool {
    97 <= c as u32 <= 122
}

pub open spec fn is_ascii_alpha_char(c: char) -> bool {
    is_ascii_upper_char(c) || is_ascii_lower_char(c)
}

/// What is wrong with the first character, if anything: it may not be a
/// digit, and it must be a letter or an (allowed) underscore.
pub open spec fn first_char_error(s: Seq<char>, allow_us: bool) -> Option<IdentifierError> {
    if s.len() == 0 {
        Some(IdentifierError::Empty)
    } else if is_ascii_digit_char(s[0]) {
        Some(IdentifierError::StartsWithDigit)
    } else if s[0] == '_' && !allow_us {
        Some(IdentifierError::InvalidCharacter('_'))
    } else if !is_ascii_alpha_char(s[0]) && s[0] != '_' {
        Some(IdentifierError::InvalidCharacter(s[0]))
    } else {
        None
    }
}

/// The first offending character of the body scan, if any: a lowercase
/// letter where uppercase is required, or a character outside letters,
/// digits, underscore and the extra allowed set.
pub open spec fn body_error(s: Seq<char>, upper: bool, extra: Seq<char>) -> Option<
    IdentifierError,
>
    decreases s.len(),
{
    if s.len() == 0 {
        None
    } else if upper && is_ascii_lower_char(s[0]) {
        Some(IdentifierError::ContainsLowercase)
    } else if !(is_ascii_digit_char(s[0]) || is_ascii_alpha_char(s[0]) || s[0] == '_'
        || extra.contains(s[0])) {
        Some(IdentifierError::InvalidCharacter(s[0]))
    } else {
        body_error(s.drop_first(), upper, extra)
    }
}

/// The verdict on an identifier: the first-character checks, then the
/// scan of every character in order.
pub open spec fn identifier_check(
    s: Seq<char>,
    upper: bool,
    allow_us: bool,
    extra: Seq<char>,
) -> Result<(), IdentifierError> {
    match first_char_error(s, allow_us) {
        Some(e) => Err(e),
        None => match body_error(s, upper, extra) {
            Some(e) => Err(e),
            None => Ok(()),
        },
    }
}

impl ValidationConfig {
    /// For environment variables in strict mode: all uppercase.
    pub fn env_var_strict() -> (c: ValidationConfig)
        ensures
            c.require_uppercase == true,
            c.allow_leading_underscore == true,
            c.additional_allowed_chars@ =~= Seq::<char>::empty(),
    {
        ValidationConfig {
            require_uppercase: true,
            allow_leading_underscore: true,
            additional_allowed_chars: Vec::new(),
        }
    }

    /// For environment variables in relaxed mode.
    pub fn env_var_relaxed() -> (c: ValidationConfig)
        ensures
            c.require_uppercase == false,
            c.allow_leading_underscore == true,
            c.additional_allowed_chars@ =~= Seq::<char>::empty(),
    {
        ValidationConfig {
            require_uppercase: false,
            allow_leading_underscore: true,
            additional_allowed_chars: Vec::new(),
        }
    }

    /// For variable names: hyphens are allowed too.
    pub fn variable_name() -> (c: ValidationConfig)
        ensures
            c.require_uppercase == false,
            c.allow_leading_underscore == true,
            c.additional_allowed_chars@ =~= seq!['-'],
    {
        let mut extra: Vec<char> = Vec::new();
        extra.push('-');
        proof {
            assert(extra@ =~= seq!['-']);
        }
        ValidationConfig {
            require_uppercase: false,
            allow_leading_underscore: true,
            additional_allowed_chars: extra,
        }
    }

    /// For constant names: all uppercase, no leading underscore.
    pub fn constant_name() -> (c: ValidationConfig)
        ensures
            c.require_uppercase == true,
            c.allow_leading_underscore == false,
            c.additional_allowed_chars@ =~= Seq::<char>::empty(),
    {
        ValidationConfig {
            require_uppercase: true,
            allow_leading_underscore: false,
            additional_allowed_chars: Vec::new(),
        }
    }
}

impl Default for ValidationConfig {
    /// The relaxed configuration: mixed case, leading underscore allowed.
    fn default() -> (c: ValidationConfig)
        ensures
            c.require_uppercase == false,
            c.allow_leading_underscore == true,
            c.additional_allowed_chars@ =~= Seq::<char>::empty(),
    {
        ValidationConfig {
            require_uppercase: false,
            allow_leading_underscore: true,
            additional_allowed_chars: Vec::new(),
        }
    }
}

/// Whether the extra allowed characters include `c`.
fn extra_contains(extra: &Vec<char>, c: char) -> (r: bool)
    ensures
        r == extra@.contains(c),
{
    let n = extra.len();
    for i in 0..n
        invariant
            n == extra@.len(),
            forall|j: int| 0 <= j < i ==> extra@[j] != c,
    {
        if extra[i] == c {
            return true;
        }
    }
    proof {
        if extra@.contains(c) {
            let j = choose|j: int| 0 <= j < extra@.len() && extra@[j] == c;
        }
    }
    false
}

/// Checks an identifier against a configuration and reports the first
/// problem found, in the order the characters stand.
pub fn validate_identifier(identifier: &str, config: &ValidationConfig) -> (r: Result<
    (),
    IdentifierError,
>)
    ensures
        r == identifier_check(
            identifier@,
            config.require_uppercase,
            config.allow_leading_underscore,
            config.additional_allowed_chars@,
        ),
{
    let ghost s = identifier@;
    let ghost extra = config.additional_allowed_chars@;
    let cs = chars_of(identifier);
    if cs.len() == 0 {
        return Err(IdentifierError::Empty);
    }
    let first = cs[0];
    let fu = first as u32;
    if 48 <= fu && fu <= 57 {
        return Err(IdentifierError::StartsWithDigit);
    }
    if first == '_' && !config.allow_leading_underscore {
        return Err(IdentifierError::InvalidCharacter('_'));
    }
    if !((65 <= fu && fu <= 90) || (97 <= fu && fu <= 122)) && first != '_' {
        return Err(IdentifierError::InvalidCharacter(first));
    }
    let n = cs.len();
    proof {
        assert(s.skip(0) =~= s);
    }
    for j in 0..n
        invariant
            s == identifier@,
            cs@ == s,
            extra == config.additional_allowed_chars@,
            n == s.len(),
            n > 0,
            first_char_error(s, config.allow_leading_underscore) is None,
            body_error(s.skip(j as int), config.require_uppercase, extra) == body_error(
                s,
                config.require_uppercase,
                extra,
            ),
    {
        let c = cs[j];
        let cu = c as u32;
        proof {
            assert(s.skip(j as int)[0] == s[j as int]);
        }
        if config.require_uppercase && 97 <= cu && cu <= 122 {
            proof {
                assert(is_ascii_lower_char(s[j as int]));
                assert(body_error(s.skip(j as int), config.require_uppercase, extra) == Some(
                    IdentifierError::ContainsLowercase,
                ));
            }
            return Err(IdentifierError::ContainsLowercase);
        }
        let ok = (48 <= cu && cu <= 57) || (65 <= cu && cu <= 90) || (97 <= cu && cu <= 122) || c
            == '_' || extra_contains(&config.additional_allowed_chars, c);
        if !ok {
            proof {
                assert(!(is_ascii_digit_char(s[j as int]) || is_ascii_alpha_char(s[j as int])
                    || s[j as int] == '_' || extra.contains(s[j as int])));
                assert(body_error(s.skip(j as int), config.require_uppercase, extra) == Some(
                    IdentifierError::InvalidCharacter(s[j as int]),
                ));
            }
            return Err(IdentifierError::InvalidCharacter(c));
        }
        proof {
            assert(s.skip(j as int).drop_first() =~= s.skip(j + 1));
            assert(body_error(s.skip(j as int), config.require_uppercase, extra) == body_error(
                s.skip(j + 1),
                config.require_uppercase,
                extra,
            ));
        }
    }
    proof {
        assert(s.skip(n as int) =~= Seq::<char>::empty());
    }
    Ok(())
}

/// Checks a profile name: letters, digits, underscores and hyphens.
pub fn validate_profile_name(name: &str) -> (r: Result<(), IdentifierError>)
    ensures
        r == identifier_check(name@, false, true, seq!['-']),
{
    let config = ValidationConfig::variable_name();
    let r = validate_identifier(name, &config);
    proof {
        assert(config.additional_allowed_chars@ =~= seq!['-']);
    }
    r
}

/// Checks a variable key: letters, digits, underscores and hyphens.
pub fn validate_variable_key(key: &str) -> (r: Result<(), IdentifierError>)
    ensures
        r == identifier_check(key@, false, true, seq!['-']),
{
    let config = ValidationConfig::variable_name();
    let r = validate_identifier(key, &config);
    proof {
        assert(config.additional_allowed_chars@ =~= seq!['-']);
    }
    r
}

} // verus!
