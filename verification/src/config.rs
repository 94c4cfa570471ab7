//! The configuration of a run, as the command line gives it.

use crate::labels::{digit_of, digit_value, is_digit};
use vstd::prelude::*;
use vstd::std_specs::iter::IteratorSpec;
use vstd::string::*;

verus! {

/// Whether `s` holds decimal digits only.
pub open spec fn all_digits(s: Seq<char>) -> bool {
    forall|i: int| 0 <= i < s.len() ==> is_digit(#[trigger] s[i])
}

/// The number that the decimal digits of `s` stand for.
pub open spec fn digits_value(s: Seq<char>) -> nat
    decreases s.len(),
{
    if s.len() == 0 {
        0
    } else {
        10 * digits_value(s.drop_last()) + digit_value(s.last())
    }
}

/// `s` without the plus sign that may stand in front of a number.
pub open spec fn unsigned_digits(s: Seq<char>) -> Seq<char> {
    if s.len() > 0 && s[0] == '+' {
        s.drop_first()
    } else {
        s
    }
}

/// The number that `s` stands for: an optional plus sign, then one or more
/// decimal digits and nothing else, of a value that a `usize` holds.
pub open spec fn parse_count(s: Seq<char>) -> Option<usize> {
    let digits = unsigned_digits(s);
    if digits.len() > 0 && all_digits(digits) && digits_value(digits) <= usize::MAX {
        Some(digits_value(digits) as usize)
    } else {
        None
    }
}

/// The value of a number does not shrink as digits are appended to it.
proof fn lemma_digits_value_grows(s: Seq<char>, k: int)
    requires
        0 <= k <= s.len(),
    ensures
        digits_value(s.take(k)) <= digits_value(s),
    decreases s.len() - k,
{
    if k == s.len() {
        assert(s.take(k) =~= s);
    } else {
        lemma_digits_value_grows(s, k + 1);
        assert(s.take(k + 1).drop_last() =~= s.take(k));
    }
}

/// Reads a count: an optional plus sign followed by decimal digits.
pub fn parse_usize(s: &str) -> (parsed: Option<usize>)
    ensures
        parsed == parse_count(s@),
{
    let ghost digits = unsigned_digits(s@);
    let ghost skipped = s@.len() - digits.len();
    let mut value: usize = 0;
    let mut seen: bool = false;
    let mut at_start: bool = true;
    for c in it: s.chars()
        invariant
            it.seq() == s@,
            at_start == (it.index() == 0),
            digits == unsigned_digits(s@),
            skipped == s@.len() - digits.len(),
            it.index() == 0 ==> !seen && value == 0,
            it.index() > 0 ==> it.index() >= skipped,
            it.index() > 0 ==> all_digits(digits.take(it.index() - skipped)),
            it.index() > 0 ==> value == digits_value(digits.take(it.index() - skipped)),
            seen == (it.index() > skipped),
    {
        let ghost i = it.index() as int;
        if at_start && c == '+' {
            proof {
                assert(s@[0] == c);
                assert(digits.take(0) =~= Seq::<char>::empty());
            }
        } else {
            let ghost j = i - skipped;
            proof {
                assert(s@[i] == c);
                assert(digits[j] == c);
                assert(digits.take(j + 1).drop_last() =~= digits.take(j));
                if i == 0 {
                    assert(digits.take(0) =~= Seq::<char>::empty());
                }
                lemma_digits_value_grows(digits, j + 1);
            }
            match digit_of(c) {
                None => {
                    return None;
                },
                Some(d) => {
                    if value > (usize::MAX - d as usize) / 10 {
                        return None;
                    }
                    value = value * 10 + d as usize;
                    seen = true;
                },
            }
        }
        at_start = false;
    }
    proof {
        if s@.len() > 0 {
            assert(digits.take(digits.len() as int) =~= digits);
        }
    }
    if seen {
        Some(value)
    } else {
        None
    }
}

/// What a run needs to know: where the keycode lines are read from, where the
/// report is written to, and how many workers count.
#[derive(Debug)]
pub struct Config {
    input_file_path: String,
    output_file_path: String,
    num_threads: usize,
}

/// A configuration as plain values.
pub struct ConfigView {
    pub input_file_path: Seq<char>,
    pub output_file_path: Seq<char>,
    pub num_threads: usize,
}

impl View for Config {
    type V = ConfigView;

    closed spec fn view(&self) -> ConfigView {
        ConfigView {
            input_file_path: self.input_file_path@,
            output_file_path: self.output_file_path@,
            num_threads: self.num_threads,
        }
    }
}

/// What the arguments of a command line configure. The first argument names the
/// program; the path of the input and the path of the output follow it and are
/// required; the number of workers comes last and is 1 where it is left out.
pub open spec fn configured(args: Seq<Seq<char>>) -> Result<ConfigView, Seq<char>> {
    if args.len() < 2 {
        Err("no input file path provided"@)
    } else if args.len() < 3 {
        Err("no output file path provided"@)
    } else {
        match if args.len() < 4 { Some(1usize) } else { parse_count(args[3]) } {
            Some(num_threads) => Ok(
                ConfigView { input_file_path: args[1], output_file_path: args[2], num_threads },
            ),
            None => Err("Unable to parse number of threads"@),
        }
    }
}

impl Config {
    /// Reads the configuration from the arguments of the command line.
    pub fn build(args: Vec<String>) -> (built: Result<Config, &'static str>)
        ensures
            match built {
                Ok(config) => configured(args.deep_view()) == Ok::<ConfigView, Seq<char>>(config@),
                Err(message) => configured(args.deep_view()) == Err::<ConfigView, Seq<char>>(
                    message@,
                ),
            },
    {
        let ghost given = args.deep_view();
        if args.len() < 2 {
            return Err("no input file path provided");
        }
        if args.len() < 3 {
            return Err("no output file path provided");
        }
        assert(given[1] == args[1]@ && given[2] == args[2]@);
        let parsed = if args.len() < 4 {
            Some(1)
        } else {
            assert(given[3] == args[3]@);
            parse_usize(args[3].as_str())
        };
        match parsed {
            Some(num_threads) => Ok(
                Config {
                    input_file_path: args[1].clone(),
                    output_file_path: args[2].clone(),
                    num_threads,
                },
            ),
            None => Err("Unable to parse number of threads"),
        }
    }

    /// The path of the file that holds the keycode lines.
    pub fn input_file_path(&self) -> (path: &str)
        ensures
            path@ == self@.input_file_path,
    {
        self.input_file_path.as_str()
    }

    /// The path of the file that the report is written to.
    pub fn output_file_path(&self) -> (path: &str)
        ensures
            path@ == self@.output_file_path,
    {
        self.output_file_path.as_str()
    }

    /// The number of workers.
    pub fn num_threads(&self) -> (n: usize)
        ensures
            n == self@.num_threads,
    {
        self.num_threads
    }
}

} // verus!
