//! Command-line values: the quality range syntax, the APNG mode and where an
//! output goes.

use vstd::prelude::*;

use crate::error::AppError;
use crate::text::{decimal, owned, push_decimal, push_str};

verus! {

/// std's owned path type, carried through unchanged in [`OutputTarget::File`].
#[verifier::external_type_specification]
#[verifier::external_body]
pub struct ExPathBuf(std::path::PathBuf);

/// APNG optimization mode.
#[derive(Clone, Copy, Debug, PartialEq, Eq, Structural)]
pub enum ApngMode {
    /// Only fold duplicate frames (safe, no visual risk).
    Safe,
    /// Also minimize frame rectangles (may alter dispose/blend semantics).
    Aggressive,
}

impl Default for ApngMode {
    fn default() -> (m: Self)
        ensures
            m == ApngMode::Safe,
    {
        ApngMode::Safe
    }
}

/// A parsed `--quality` argument: the text as given (trimmed) and the
/// minimum and target qualities it stands for.
#[derive(Debug, Clone, PartialEq, Eq)]
pub struct QualityRange {
    pub raw: String,
    pub min: u8,
    pub max: u8,
}

impl QualityRange {
    /// The argument as the user wrote it.
    pub fn requested(&self) -> (r: &str)
        ensures
            r@ == self.raw@,
    {
        self.raw.as_str()
    }

    /// The range actually used, as `MIN-MAX`.
    pub fn effective(&self) -> (s: String)
        ensures
            s@ == decimal(self.min as nat) + "-"@ + decimal(self.max as nat),
    {
        let mut s = String::new();
        push_decimal(&mut s, self.min as u64);
        push_str(&mut s, "-");
        push_decimal(&mut s, self.max as u64);
        s
    }
}

/// Where the result for one input is written.
#[derive(Debug)]
pub enum OutputTarget {
    File(std::path::PathBuf),
    Stdout,
}

// ---------------------------------------------------------------- text rules

/// Unicode's White_Space property, which `str::trim` strips.
pub open spec fn is_white_space(c: char) -> bool {
    let u = c as u32;
    ||| 0x09 <= u <= 0x0d
    ||| u == 0x20
    ||| u == 0x85
    ||| u == 0xa0
    ||| u == 0x1680
    ||| 0x2000 <= u <= 0x200a
    ||| u == 0x2028
    ||| u == 0x2029
    ||| u == 0x202f
    ||| u == 0x205f
    ||| u == 0x3000
}

pub open spec fn trim_start(s: Seq<char>) -> Seq<char>
    decreases s.len(),
{
    if s.len() > 0 && is_white_space(s[0]) {
        trim_start(s.drop_first())
    } else {
        s
    }
}

pub open spec fn trim_end(s: Seq<char>) -> Seq<char>
    decreases s.len(),
{
    if s.len() > 0 && is_white_space(s.last()) {
        trim_end(s.drop_last())
    } else {
        s
    }
}

/// `s` without leading and trailing white space.
pub open spec fn trimmed(s: Seq<char>) -> Seq<char> {
    trim_end(trim_start(s))
}

/// `i` is the first position of `c` in `s`.
pub open spec fn first_at(s: Seq<char>, c: char, i: int) -> bool {
    &&& 0 <= i < s.len()
    &&& s[i] == c
    &&& forall|j: int| 0 <= j < i ==> s[j] != c
}

pub open spec fn is_digit(c: char) -> bool {
    48 <= (c as u32) <= 57
}

/// The value of a string of decimal digits.
pub open spec fn digits_value(d: Seq<char>) -> nat
    decreases d.len(),
{
    if d.len() == 0 {
        0
    } else {
        10 * digits_value(d.drop_last()) + ((d.last() as u32) - 48) as nat
    }
}

/// What `u8::from_str` accepts: an optional `+`, then one or more decimal
/// digits whose value is at most 255.
pub open spec fn u8_from_str(s: Seq<char>) -> Option<u8> {
    let d = if s.len() > 0 && s[0] == '+' {
        s.drop_first()
    } else {
        s
    };
    if d.len() > 0 && (forall|i: int| 0 <= i < d.len() ==> is_digit(#[trigger] d[i]))
        && digits_value(d) <= 255 {
        Some(digits_value(d) as u8)
    } else {
        None
    }
}

/// `str::trim`.
#[verifier::external_body]
fn trim_str(s: &str) -> (r: &str)
    ensures
        r@ == trimmed(s@),
{
    s.trim()
}

/// `str::strip_prefix` with a single character.
#[verifier::external_body]
fn strip_prefix_char(s: &str, c: char) -> (r: Option<&str>)
    ensures
        match r {
            Some(t) => s@.len() > 0 && s@[0] == c && t@ == s@.drop_first(),
            None => !(s@.len() > 0 && s@[0] == c),
        },
{
    s.strip_prefix(c)
}

/// `str::strip_suffix` with a single character.
#[verifier::external_body]
fn strip_suffix_char(s: &str, c: char) -> (r: Option<&str>)
    ensures
        match r {
            Some(t) => s@.len() > 0 && s@.last() == c && t@ == s@.drop_last(),
            None => !(s@.len() > 0 && s@.last() == c),
        },
{
    s.strip_suffix(c)
}

/// `str::split_once` at a single character: the text before and after its
/// first occurrence.
#[verifier::external_body]
fn split_once_char(s: &str, c: char) -> (r: Option<(&str, &str)>)
    ensures
        match r {
            Some((a, b)) => exists|i: int|
                first_at(s@, c, i) && a@ == s@.take(i) && b@ == s@.skip(i + 1),
            None => forall|i: int| 0 <= i < s@.len() ==> s@[i] != c,
        },
{
    s.split_once(c)
}

/// `u8::from_str` (through `str::parse`), its error dropped.
#[verifier::external_body]
fn parse_u8(s: &str) -> (r: Option<u8>)
    ensures
        r == u8_from_str(s@),
{
    s.parse::<u8>().ok()
}

// ---------------------------------------------------------------- quality

pub open spec fn out_of_range_msg(label: Seq<char>) -> Seq<char> {
    label + " must be 0..100"@
}

pub open spec fn empty_quality_msg() -> Seq<char> {
    "quality must not be empty"@
}

pub open spec fn inverted_range_msg() -> Seq<char> {
    "quality minimum must be <= quality target"@
}

/// One quality number: 0 to 100.
pub open spec fn quality_value(s: Seq<char>, label: Seq<char>) -> Result<u8, Seq<char>> {
    match u8_from_str(s) {
        Some(v) => if v <= 100 {
            Ok(v)
        } else {
            Err(out_of_range_msg(label))
        },
        None => Err(out_of_range_msg(label)),
    }
}

/// The (minimum, target) pair that a `--quality` argument stands for:
/// `-N` is 0 to N, `N-` is N to 100, `MIN-MAX` needs MIN <= MAX, and a single
/// `N` is 90% of N (rounded down) to N.
pub open spec fn quality_range_of(raw: Seq<char>) -> Result<(u8, u8), Seq<char>> {
    let t = trimmed(raw);
    if t.len() == 0 {
        Err(empty_quality_msg())
    } else if t[0] == '-' {
        match quality_value(t.drop_first(), "quality target"@) {
            Ok(v) => Ok((0u8, v)),
            Err(m) => Err(m),
        }
    } else if t.last() == '-' {
        match quality_value(t.drop_last(), "quality minimum"@) {
            Ok(v) => Ok((v, 100u8)),
            Err(m) => Err(m),
        }
    } else if exists|i: int| first_at(t, '-', i) {
        let i = choose|i: int| first_at(t, '-', i);
        match quality_value(t.take(i), "quality minimum"@) {
            Err(m) => Err(m),
            Ok(lo) => match quality_value(t.skip(i + 1), "quality target"@) {
                Err(m) => Err(m),
                Ok(hi) => if lo > hi {
                    Err(inverted_range_msg())
                } else {
                    Ok((lo, hi))
                },
            },
        }
    } else {
        match quality_value(t, "quality target"@) {
            Ok(v) => Ok((((v as nat) * 9 / 10) as u8, v)),
            Err(m) => Err(m),
        }
    }
}

proof fn lemma_decimal_parses(n: nat)
    ensures
        decimal(n).len() >= 1,
        forall|i: int| 0 <= i < decimal(n).len() ==> #[trigger] is_digit(decimal(n)[i]),
        digits_value(decimal(n)) == n,
    decreases n,
{
    let c = crate::text::digit_char(n % 10);
    assert(c as u32 == n % 10 + 48);
    if n >= 10 {
        lemma_decimal_parses(n / 10);
        let d = decimal(n);
        assert(d == decimal(n / 10).push(c));
        assert(d.drop_last() =~= decimal(n / 10));
        assert(d.last() == c);
        assert(digits_value(d) == 10 * digits_value(d.drop_last()) + ((c as u32) - 48) as nat);
        assert forall|i: int| 0 <= i < d.len() implies #[trigger] is_digit(d[i]) by {
            if i < d.len() - 1 {
                assert(d[i] == decimal(n / 10)[i]);
            }
        }
    } else {
        let d = decimal(n);
        assert(d == seq![c]);
        assert(d.last() == c);
        assert(d.drop_last() =~= Seq::<char>::empty());
        assert(digits_value(d.drop_last()) == 0);
        assert(digits_value(d) == 10 * digits_value(d.drop_last()) + ((c as u32) - 48) as nat);
    }
}

proof fn lemma_quality_value_of_decimal(v: u8, label: Seq<char>)
    requires
        v <= 100,
    ensures
        quality_value(decimal(v as nat), label) == Ok::<u8, Seq<char>>(v),
{
    lemma_decimal_parses(v as nat);
    let d = decimal(v as nat);
    assert(is_digit(d[0]));
    assert(d[0] != '+');
}

proof fn lemma_no_white_space_ends(s: Seq<char>)
    requires
        s.len() >= 1,
        is_digit(s[0]),
        is_digit(s.last()),
    ensures
        trimmed(s) == s,
{
    assert(!is_white_space(s[0]));
    assert(trim_start(s) == s);
    assert(!is_white_space(s.last()));
    assert(trim_end(s) == s);
}

/// Law: every range `MIN-MAX` with `MIN <= MAX <= 100` is accepted as it is
/// written, and so are `-MAX` (from 0) and `MIN-` (to 100).
pub proof fn lemma_quality_ranges_parse(lo: u8, hi: u8)
    requires
        lo <= hi <= 100,
    ensures
        quality_range_of(decimal(lo as nat) + "-"@ + decimal(hi as nat)) == Ok::<(u8, u8), Seq<char>>((lo, hi)),
        quality_range_of("-"@ + decimal(hi as nat)) == Ok::<(u8, u8), Seq<char>>((0u8, hi)),
        quality_range_of(decimal(lo as nat) + "-"@) == Ok::<(u8, u8), Seq<char>>((lo, 100u8)),
{
    reveal_strlit("-");
    let a = decimal(lo as nat);
    let b = decimal(hi as nat);
    lemma_decimal_parses(lo as nat);
    lemma_decimal_parses(hi as nat);
    lemma_quality_value_of_decimal(lo, "quality minimum"@);
    lemma_quality_value_of_decimal(hi, "quality target"@);
    let s = a + "-"@ + b;
    assert(s[0] == a[0]);
    assert(s.last() == b.last());
    assert(is_digit(a[0]) && is_digit(b[b.len() - 1]));
    lemma_no_white_space_ends(s);
    let i = a.len() as int;
    assert(first_at(s, '-', i)) by {
        assert forall|j: int| 0 <= j < i implies s[j] != '-' by {
            assert(s[j] == a[j]);
            assert(is_digit(a[j]));
        }
    }
    let k = choose|k: int| first_at(s, '-', k);
    lemma_first_at_unique(s, '-', i, k);
    assert(s.take(i) =~= a);
    assert(s.skip(i + 1) =~= b);
    assert(s[0] != '-');
    assert(s.last() != '-');
    let s2 = "-"@ + b;
    assert(trim_start(s2) == s2) by {
        assert(!is_white_space(s2[0]));
    }
    assert(s2.last() == b.last());
    assert(trim_end(s2) == s2) by {
        assert(!is_white_space(s2.last()));
    }
    assert(s2.drop_first() =~= b);
    let s3 = a + "-"@;
    assert(s3[0] == a[0]);
    assert(trim_start(s3) == s3) by {
        assert(!is_white_space(s3[0]));
    }
    assert(trim_end(s3) == s3) by {
        assert(!is_white_space(s3.last()));
    }
    assert(s3[0] != '-');
    assert(s3.drop_last() =~= a);
}

proof fn lemma_first_at_unique(s: Seq<char>, c: char, i: int, j: int)
    requires
        first_at(s, c, i),
        first_at(s, c, j),
    ensures
        i == j,
{
    if i < j {
        assert(s[i] != c);
    } else if j < i {
        assert(s[j] != c);
    }
}

fn parse_quality_value(raw: &str, label: &str) -> (r: Result<u8, String>)
    ensures
        match r {
            Ok(v) => quality_value(raw@, label@) == Ok::<u8, Seq<char>>(v),
            Err(m) => quality_value(raw@, label@) == Err::<u8, Seq<char>>(m@),
        },
{
    match parse_u8(raw) {
        Some(v) => {
            if v <= 100 {
                Ok(v)
            } else {
                let mut m = owned(label);
                push_str(&mut m, " must be 0..100");
                Err(m)
            }
        },
        None => {
            let mut m = owned(label);
            push_str(&mut m, " must be 0..100");
            Err(m)
        },
    }
}

/// Parses a `--quality` argument (see [`quality_range_of`]).
pub fn parse_quality_range(raw: &str) -> (r: Result<QualityRange, String>)
    ensures
        match r {
            Ok(q) => quality_range_of(raw@) == Ok::<(u8, u8), Seq<char>>((q.min, q.max)) && q.raw@
                == trimmed(raw@),
            Err(m) => quality_range_of(raw@) == Err::<(u8, u8), Seq<char>>(m@),
        },
        r matches Ok(q) ==> q.min <= q.max <= 100,
{
    let t = trim_str(raw);
    if t.is_empty() {
        return Err(owned("quality must not be empty"));
    }
    let (min, max): (u8, u8) = if let Some(target_raw) = strip_prefix_char(t, '-') {
        match parse_quality_value(target_raw, "quality target") {
            Ok(v) => (0u8, v),
            Err(m) => {
                return Err(m);
            },
        }
    } else if let Some(min_raw) = strip_suffix_char(t, '-') {
        match parse_quality_value(min_raw, "quality minimum") {
            Ok(v) => (v, 100u8),
            Err(m) => {
                return Err(m);
            },
        }
    } else if let Some((min_raw, max_raw)) = split_once_char(t, '-') {
        proof {
            let i = choose|i: int| first_at(t@, '-', i) && min_raw@ == t@.take(i) && max_raw@ == t@.skip(i + 1);
            let k = choose|i: int| first_at(t@, '-', i);
            lemma_first_at_unique(t@, '-', i, k);
        }
        let lo = match parse_quality_value(min_raw, "quality minimum") {
            Ok(v) => v,
            Err(m) => {
                return Err(m);
            },
        };
        let hi = match parse_quality_value(max_raw, "quality target") {
            Ok(v) => v,
            Err(m) => {
                return Err(m);
            },
        };
        if lo > hi {
            return Err(owned("quality minimum must be <= quality target"));
        }
        (lo, hi)
    } else {
        match parse_quality_value(t, "quality target") {
            Ok(v) => ((((v as u16) * 9) / 10) as u8, v),
            Err(m) => {
                return Err(m);
            },
        }
    };
    Ok(QualityRange { raw: t.to_owned(), min, max })
}

// ---------------------------------------------------------------- argument rules

/// The text of each string.
pub open spec fn texts(v: Seq<String>) -> Seq<Seq<char>> {
    v.map_values(|s: String| s@)
}

pub open spec fn is_dash(s: Seq<char>) -> bool {
    s == "-"@
}

/// What the argument rules reject, with the message for the first rule
/// broken: `--output` with several inputs, stdin (`-`) among several
/// inputs, stdout (`--output -`) without exactly one input, and an `--ext`
/// holding the path separator.
pub open spec fn argument_error(inputs: Seq<Seq<char>>, output: Option<Seq<char>>, ext: Seq<char>, separator: char) -> Option<Seq<char>> {
    if output is Some && inputs.len() > 1 {
        Some("--output can only be used with a single input"@)
    } else if inputs.len() > 1 && (exists|i: int| 0 <= i < inputs.len() && is_dash(#[trigger] inputs[i])) {
        Some("stdin input ('-') cannot be mixed with multiple inputs"@)
    } else if output == Some("-"@) && inputs.len() != 1 {
        Some("stdout output ('--output -') requires a single input"@)
    } else if ext.contains(separator) {
        Some("--ext must be a filename suffix, not a path"@)
    } else {
        None
    }
}

fn is_dash_str(s: &str) -> (r: bool)
    ensures
        r == is_dash(s@),
{
    proof {
        reveal_strlit("-");
    }
    match strip_prefix_char(s, '-') {
        Some(rest) => {
            let r = rest.is_empty();
            proof {
                if r {
                    assert(s@ =~= "-"@);
                } else {
                    assert(s@.len() != 1);
                }
            }
            r
        },
        None => false,
    }
}

fn contains_char(s: &str, c: char) -> (r: bool)
    ensures
        r == s@.contains(c),
{
    match split_once_char(s, c) {
        Some(_) => true,
        None => false,
    }
}

/// Checks the combination of inputs, `--output` and `--ext` (the rules of
/// [`argument_error`]); files are checked separately.
pub fn check_argument_rules(inputs: &Vec<String>, output: Option<&str>, ext: &str, separator: char) -> (r: Result<
    (),
    AppError,
>)
    ensures
        match argument_error(
            texts(inputs@),
            match output {
                Some(o) => Some(o@),
                None => None,
            },
            ext@,
            separator,
        ) {
            Some(m) => r matches Err(AppError::Arg(e)) && e@ == m,
            None => r is Ok,
        },
{
    let ghost ins = texts(inputs@);
    let ghost out = match output {
        Some(o) => Some(o@),
        None => None::<Seq<char>>,
    };
    if output.is_some() && inputs.len() > 1 {
        return Err(AppError::Arg(owned("--output can only be used with a single input")));
    }
    if inputs.len() > 1 {
        let mut k: usize = 0;
        while k < inputs.len()
            invariant
                k <= inputs@.len(),
                ins == texts(inputs@),
                inputs@.len() > 1,
                out is None,
                out == (match output {
                    Some(o) => Some(o@),
                    None => None::<Seq<char>>,
                }),
                forall|i: int| 0 <= i < k ==> !is_dash(#[trigger] ins[i]),
            decreases inputs@.len() - k,
        {
            if is_dash_str(inputs[k].as_str()) {
                proof {
                    assert(ins[k as int] == inputs@[k as int]@);
                    assert(is_dash(ins[k as int]));
                    assert(ins.len() == inputs@.len());
                    assert(exists|i: int| 0 <= i < ins.len() && is_dash(#[trigger] ins[i]));
                    assert(out is None);
                }
                return Err(AppError::Arg(owned("stdin input ('-') cannot be mixed with multiple inputs")));
            }
            k = k + 1;
        }
    }
    match output {
        Some(o) => {
            if is_dash_str(o) && inputs.len() != 1 {
                return Err(AppError::Arg(owned("stdout output ('--output -') requires a single input")));
            }
        },
        None => {},
    }
    if contains_char(ext, separator) {
        return Err(AppError::Arg(owned("--ext must be a filename suffix, not a path")));
    }
    Ok(())
}

} // verus!
