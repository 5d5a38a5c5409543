//! The command-line rules and the decoding table's entries.
use vstd::prelude::*;
use vstd::string::*;

verus! {

/// What the first eight bits of a byte decode to: the byte, and how many of
/// the bits that took (zero where they do not reach a leaf).
#[derive(Clone, Copy, Debug, PartialEq, Eq)]
pub struct LUTEntry {
    pub length: u8,
    pub byte: u8,
}

/// Why the command line was not accepted.
#[derive(Clone, Copy, Debug, PartialEq, Eq)]
pub enum ArgError {
    Help,
    MissingOutputArg,
    ConflictingModes,
    NoModeSpecified,
    MissingInput,
    MissingThreadsArg,
    InvalidThreadsArg,
}

/// What the command line asks for.
#[derive(Clone, Debug, PartialEq, Eq)]
pub struct Config {
    pub input_file: String,
    pub output_file: String,
    pub compress: bool,
    pub decompress: bool,
    pub max_threads: usize,
}

/// The most threads counting may use when `-t` is not given.
pub const DEFAULT_MAX_THREADS: usize = 4;

/// The character is a decimal digit.
pub open spec fn is_digit(c: char) -> bool {
    0x30 <= (c as u32) <= 0x39
}

/// The number the decimal digits of `s` stand for.
pub open spec fn digits_value(s: Seq<char>) -> nat
    decreases s.len(),
{
    if s.len() == 0 {
        0
    } else {
        digits_value(s.drop_last()) * 10 + ((s.last() as u32) - 0x30) as nat
    }
}

/// The text of a thread count after its optional leading `+`.
pub open spec fn unsigned_part(s: Seq<char>) -> Seq<char> {
    if s.len() > 0 && s[0] == '+' {
        s.skip(1)
    } else {
        s
    }
}

/// Every character of `s` is a decimal digit.
pub open spec fn all_digits(s: Seq<char>) -> bool {
    forall|i: int| 0 <= i < s.len() ==> is_digit(#[trigger] s[i])
}

/// The thread count written in `s`: an optional `+`, then one decimal digit
/// or more, for a number from 1 to `usize::MAX`; nothing for any other text.
pub open spec fn thread_count(s: Seq<char>) -> Option<usize> {
    let d = unsigned_part(s);
    if d.len() > 0 && all_digits(d) && 0 < digits_value(d) <= usize::MAX {
        Some(digits_value(d) as usize)
    } else {
        None
    }
}

/// Reading the arguments from position `i` on, with the input, the output,
/// the two modes and the thread limit found so far: `-h` stops with the
/// help request; `-c` and `-x` set compression and decompression; `-o`
/// takes the next argument as the output, and fails if there is none; `-t`
/// takes the next argument as the thread limit, and fails if there is none
/// or it is not a positive integer; any other argument is the input (a
/// later one replacing an earlier one).
pub open spec fn scan_args(
    args: Seq<Seq<char>>,
    i: int,
    input: Option<Seq<char>>,
    output: Option<Seq<char>>,
    compress: bool,
    decompress: bool,
    threads: usize,
) -> Result<(Option<Seq<char>>, Option<Seq<char>>, bool, bool, usize), ArgError>
    decreases args.len() - i,
{
    if i >= args.len() {
        Ok((input, output, compress, decompress, threads))
    } else if args[i] == "-h"@ {
        Err(ArgError::Help)
    } else if args[i] == "-c"@ {
        scan_args(args, i + 1, input, output, true, decompress, threads)
    } else if args[i] == "-x"@ {
        scan_args(args, i + 1, input, output, compress, true, threads)
    } else if args[i] == "-o"@ {
        if i + 1 < args.len() {
            scan_args(args, i + 2, input, Some(args[i + 1]), compress, decompress, threads)
        } else {
            Err(ArgError::MissingOutputArg)
        }
    } else if args[i] == "-t"@ {
        if i + 1 < args.len() {
            match thread_count(args[i + 1]) {
                Some(n) => scan_args(args, i + 2, input, output, compress, decompress, n),
                None => Err(ArgError::InvalidThreadsArg),
            }
        } else {
            Err(ArgError::MissingThreadsArg)
        }
    } else {
        scan_args(args, i + 1, Some(args[i]), output, compress, decompress, threads)
    }
}

/// What the command line `args` (the program's name first) asks for: the
/// arguments after the name are read as above, the thread limit being
/// `DEFAULT_MAX_THREADS` until `-t` gives one; then both modes conflict,
/// neither is no mode, and the input and the output must both be given.
pub open spec fn args_outcome(args: Seq<Seq<char>>) -> Result<
    (Seq<char>, Seq<char>, bool, bool, usize),
    ArgError,
> {
    match scan_args(args, 1, None, None, false, false, DEFAULT_MAX_THREADS) {
        Err(e) => Err(e),
        Ok(found) => {
            let (input, output, compress, decompress, threads) = found;
            if compress && decompress {
                Err(ArgError::ConflictingModes)
            } else if !compress && !decompress {
                Err(ArgError::NoModeSpecified)
            } else if input is None {
                Err(ArgError::MissingInput)
            } else if output is None {
                Err(ArgError::MissingOutputArg)
            } else {
                Ok((input.unwrap(), output.unwrap(), compress, decompress, threads))
            }
        },
    }
}

/// The texts of the arguments.
pub open spec fn arg_texts(args: Seq<String>) -> Seq<Seq<char>> {
    args.map_values(|s: String| s@)
}

proof fn lemma_digits_value_grows(s: Seq<char>, j: int)
    requires
        0 <= j <= s.len(),
        forall|i: int| 0 <= i < s.len() ==> is_digit(#[trigger] s[i]),
    ensures
        digits_value(s.take(j)) <= digits_value(s),
    decreases s.len(),
{
    if j < s.len() {
        let r = s.drop_last();
        assert forall|i: int| 0 <= i < r.len() implies is_digit(#[trigger] r[i]) by {
            assert(r[i] == s[i]);
        }
        lemma_digits_value_grows(r, j);
        assert(r.take(j) =~= s.take(j));
    } else {
        assert(s.take(j) =~= s);
    }
}

/// The thread count written in `text` (see `thread_count`).
pub fn parse_threads(text: &String) -> (res: Option<usize>)
    ensures
        res == thread_count(text@),
{
    let t = text.as_str();
    let len = t.unicode_len();
    let mut start: usize = 0;
    if len > 0 && t.get_char(0) == '+' {
        start = 1;
    }
    let ghost d = unsigned_part(text@);
    proof {
        assert(d =~= text@.skip(start as int));
    }
    if start == len {
        return None;
    }
    let mut value: usize = 0;
    let mut i: usize = start;
    while i < len
        invariant
            t@ == text@,
            len == text@.len(),
            start <= i <= len,
            d == text@.skip(start as int),
            d == unsigned_part(text@),
            forall|k: int| 0 <= k < i - start ==> is_digit(#[trigger] d[k]),
            value == digits_value(d.take(i - start)),
        decreases len - i,
    {
        let c = t.get_char(i);
        let code = c as u32;
        proof {
            assert(d[i - start] == c);
        }
        if code < 0x30 || code > 0x39 {
            proof {
                assert(!is_digit(d[i - start]));
                assert(!all_digits(d));
            }
            return None;
        }
        let digit = (code - 0x30) as usize;
        proof {
            assert(d.take(i - start + 1).drop_last() =~= d.take(i - start));
            assert(d.take(i - start + 1).last() == c);
            assert(digits_value(d.take(i - start + 1)) == value * 10 + digit);
        }
        let next = match value.checked_mul(10) {
            Some(m) => m.checked_add(digit),
            None => None,
        };
        match next {
            Some(v) => {
                value = v;
            },
            None => {
                proof {
                    assert(value * 10 + digit > usize::MAX);
                    if all_digits(d) {
                        lemma_digits_value_grows(d, i - start + 1);
                    }
                }
                return None;
            },
        }
        i = i + 1;
    }
    proof {
        assert(d.take(i - start) =~= d);
    }
    if value == 0 {
        return None;
    }
    Some(value)
}

/// Reads the command line: the program's name, then `-c` (compress), `-x`
/// (decompress), `-o <output>`, `-t <threads>`, `-h` (help) and the input,
/// in any order.
pub fn process_args(args: Vec<String>) -> (res: Result<Config, ArgError>)
    ensures
        args_outcome(arg_texts(args@)) matches Err(e) ==> res == Err::<Config, ArgError>(e),
        args_outcome(arg_texts(args@)) matches Ok(c) ==> res matches Ok(config) && config.input_file@
            == c.0 && config.output_file@ == c.1 && config.compress == c.2 && config.decompress
            == c.3 && config.max_threads == c.4,
{
    let ghost texts = arg_texts(args@);
    let help = String::from_str("-h");
    let comp = String::from_str("-c");
    let decomp = String::from_str("-x");
    let out = String::from_str("-o");
    let thr = String::from_str("-t");
    let mut input: Option<String> = None;
    let mut output: Option<String> = None;
    let mut compress: bool = false;
    let mut decompress: bool = false;
    let mut max_threads: usize = DEFAULT_MAX_THREADS;
    let mut i: usize = 1;
    while i < args.len()
        invariant
            texts == arg_texts(args@),
            help@ == "-h"@,
            comp@ == "-c"@,
            decomp@ == "-x"@,
            out@ == "-o"@,
            thr@ == "-t"@,
            1 <= i,
            scan_args(texts, 1, None, None, false, false, DEFAULT_MAX_THREADS) == scan_args(
                texts,
                i as int,
                match input {
                    Some(s) => Some(s@),
                    None => None,
                },
                match output {
                    Some(s) => Some(s@),
                    None => None,
                },
                compress,
                decompress,
                max_threads,
            ),
        decreases args.len() - i,
    {
        let arg = &args[i];
        proof {
            assert(texts[i as int] == arg@);
        }
        if *arg == help {
            return Err(ArgError::Help);
        } else if *arg == comp {
            compress = true;
            i = i + 1;
        } else if *arg == decomp {
            decompress = true;
            i = i + 1;
        } else if *arg == out {
            if i + 1 < args.len() {
                proof {
                    assert(texts[i + 1] == args@[i + 1]@);
                }
                output = Some(args[i + 1].clone());
                i = i + 2;
            } else {
                return Err(ArgError::MissingOutputArg);
            }
        } else if *arg == thr {
            if i + 1 < args.len() {
                proof {
                    assert(texts[i + 1] == args@[i + 1]@);
                }
                match parse_threads(&args[i + 1]) {
                    Some(n) => {
                        max_threads = n;
                    },
                    None => {
                        return Err(ArgError::InvalidThreadsArg);
                    },
                }
                i = i + 2;
            } else {
                return Err(ArgError::MissingThreadsArg);
            }
        } else {
            input = Some(arg.clone());
            i = i + 1;
        }
    }
    if compress && decompress {
        return Err(ArgError::ConflictingModes);
    }
    if !compress && !decompress {
        return Err(ArgError::NoModeSpecified);
    }
    let input_file = match input {
        Some(file) => file,
        None => {
            return Err(ArgError::MissingInput);
        },
    };
    let output_file = match output {
        Some(file) => file,
        None => {
            return Err(ArgError::MissingOutputArg);
        },
    };
    Ok(Config { input_file, output_file, compress, decompress, max_threads })
}

/// The decimal digit for `k` (below ten).
pub open spec fn digit_char(k: nat) -> char {
    if k == 0 {
        '0'
    } else if k == 1 {
        '1'
    } else if k == 2 {
        '2'
    } else if k == 3 {
        '3'
    } else if k == 4 {
        '4'
    } else if k == 5 {
        '5'
    } else if k == 6 {
        '6'
    } else if k == 7 {
        '7'
    } else if k == 8 {
        '8'
    } else {
        '9'
    }
}

/// The decimal text of `n`, without leading zeros.
pub open spec fn decimal(n: nat) -> Seq<char>
    decreases n,
{
    if n < 10 {
        seq![digit_char(n)]
    } else {
        decimal(n / 10).push(digit_char(n % 10))
    }
}

proof fn lemma_digit_char(k: nat)
    requires
        k < 10,
    ensures
        digit_char(k) as u32 == k + 0x30,
{
}

proof fn lemma_decimal(n: nat)
    ensures
        decimal(n).len() > 0,
        decimal(n)[0] != '+',
        all_digits(decimal(n)),
        digits_value(decimal(n)) == n,
    decreases n,
{
    if n < 10 {
        lemma_digit_char(n);
        assert(decimal(n).drop_last() =~= Seq::<char>::empty());
        assert(decimal(n).last() == digit_char(n));
        assert(digits_value(decimal(n).drop_last()) == 0);
        assert(digits_value(decimal(n)) == digits_value(decimal(n).drop_last()) * 10 + ((
        decimal(n).last() as u32) - 0x30) as nat);
    } else {
        lemma_decimal(n / 10);
        lemma_digit_char((n % 10) as nat);
        let s = decimal(n);
        assert(s.last() == digit_char((n % 10) as nat));
        assert(s.drop_last() =~= decimal(n / 10));
        assert(s[0] == decimal(n / 10)[0]);
        assert forall|i: int| 0 <= i < s.len() implies is_digit(#[trigger] s[i]) by {
            if i < s.len() - 1 {
                assert(s[i] == decimal(n / 10)[i]);
            }
        }
        assert(n == (n / 10) * 10 + n % 10) by (nonlinear_arith);
        assert(((s.last() as u32) - 0x30) as nat == n % 10);
        assert(digits_value(s) == digits_value(s.drop_last()) * 10 + ((s.last() as u32) - 0x30) as nat);
    }
}

/// Every number from 1 to `usize::MAX`, written in decimal, is read back as
/// that thread count.
pub proof fn lemma_decimal_thread_count(n: nat)
    requires
        1 <= n <= usize::MAX,
    ensures
        thread_count(decimal(n)) == Some(n as usize),
{
    lemma_decimal(n);
    assert(unsigned_part(decimal(n)) == decimal(n));
}

/// The argument is one of the options the command line knows.
pub open spec fn is_option(arg: Seq<char>) -> bool {
    arg == "-h"@ || arg == "-c"@ || arg == "-x"@ || arg == "-o"@ || arg == "-t"@
}

/// The command line of program `name` with the mode flag `mode`, the input
/// `input` and `-o out`, in the order numbered `order` (one of the six).
pub open spec fn arranged(
    name: Seq<char>,
    mode: Seq<char>,
    input: Seq<char>,
    out: Seq<char>,
    order: nat,
) -> Seq<Seq<char>> {
    let m = seq![mode];
    let i = seq![input];
    let o = seq!["-o"@, out];
    seq![name] + if order == 0 {
        m + i + o
    } else if order == 1 {
        m + o + i
    } else if order == 2 {
        i + m + o
    } else if order == 3 {
        i + o + m
    } else if order == 4 {
        o + m + i
    } else {
        o + i + m
    }
}

/// The arguments may come in any order: a command line with one mode flag,
/// one input and `-o` with an output asks for that mode, that input and that
/// output, with the default thread limit, wherever each of them stands.
pub proof fn lemma_args_in_any_order(
    name: Seq<char>,
    mode: Seq<char>,
    input: Seq<char>,
    out: Seq<char>,
    order: nat,
)
    requires
        mode == "-c"@ || mode == "-x"@,
        !is_option(input),
        order < 6,
    ensures
        args_outcome(arranged(name, mode, input, out, order)) == Ok::<
            (Seq<char>, Seq<char>, bool, bool, usize),
            ArgError,
        >((input, out, mode == "-c"@, mode == "-x"@, DEFAULT_MAX_THREADS)),
{
    reveal_strlit("-h");
    reveal_strlit("-c");
    reveal_strlit("-x");
    reveal_strlit("-o");
    reveal_strlit("-t");
    assert("-h"@[1] == 'h' && "-c"@[1] == 'c' && "-x"@[1] == 'x' && "-o"@[1] == 'o' && "-t"@[1]
        == 't');
    assert("-c"@ != "-x"@);
    assert("-o"@ != "-h"@ && "-o"@ != "-c"@ && "-o"@ != "-x"@);
    assert(mode != "-h"@ && mode != "-o"@ && mode != "-t"@);
    let a = arranged(name, mode, input, out, order);
    reveal_with_fuel(scan_args, 5);
    assert(a.len() == 5);
    if order == 0 {
        assert(a =~= seq![name, mode, input, "-o"@, out]);
    } else if order == 1 {
        assert(a =~= seq![name, mode, "-o"@, out, input]);
    } else if order == 2 {
        assert(a =~= seq![name, input, mode, "-o"@, out]);
    } else if order == 3 {
        assert(a =~= seq![name, input, "-o"@, out, mode]);
    } else if order == 4 {
        assert(a =~= seq![name, "-o"@, out, mode, input]);
    } else {
        assert(a =~= seq![name, "-o"@, out, input, mode]);
    }
}

proof fn lemma_option_texts()
    ensures
        "-h"@ != "-c"@,
        "-h"@ != "-x"@,
        "-h"@ != "-o"@,
        "-h"@ != "-t"@,
        "-c"@ != "-x"@,
        "-c"@ != "-o"@,
        "-c"@ != "-t"@,
        "-x"@ != "-o"@,
        "-x"@ != "-t"@,
        "-o"@ != "-t"@,
{
    reveal_strlit("-h");
    reveal_strlit("-c");
    reveal_strlit("-x");
    reveal_strlit("-o");
    reveal_strlit("-t");
    assert("-h"@[1] == 'h' && "-c"@[1] == 'c' && "-x"@[1] == 'x' && "-o"@[1] == 'o' && "-t"@[1]
        == 't');
}

/// `-h` right after the program's name asks for help, whatever follows.
pub proof fn lemma_help_first(name: Seq<char>, rest: Seq<Seq<char>>)
    ensures
        args_outcome(seq![name, "-h"@] + rest) == Err::<
            (Seq<char>, Seq<char>, bool, bool, usize),
            ArgError,
        >(ArgError::Help),
{
    assert((seq![name, "-h"@] + rest)[1] == "-h"@);
}

/// Of two inputs, the later one is taken.
pub proof fn lemma_later_input_wins(
    name: Seq<char>,
    mode: Seq<char>,
    first: Seq<char>,
    second: Seq<char>,
    out: Seq<char>,
)
    requires
        mode == "-c"@ || mode == "-x"@,
        !is_option(first),
        !is_option(second),
    ensures
        args_outcome(seq![name, mode, first, second, "-o"@, out]) == Ok::<
            (Seq<char>, Seq<char>, bool, bool, usize),
            ArgError,
        >((second, out, mode == "-c"@, mode == "-x"@, DEFAULT_MAX_THREADS)),
{
    lemma_option_texts();
    reveal_with_fuel(scan_args, 6);
}

/// `-t` followed by a number from 1 to `usize::MAX` in decimal sets the
/// thread limit to that number.
pub proof fn lemma_threads_given(
    name: Seq<char>,
    mode: Seq<char>,
    input: Seq<char>,
    out: Seq<char>,
    n: nat,
)
    requires
        mode == "-c"@ || mode == "-x"@,
        !is_option(input),
        1 <= n <= usize::MAX,
    ensures
        args_outcome(seq![name, mode, "-t"@, decimal(n), "-o"@, out, input]) == Ok::<
            (Seq<char>, Seq<char>, bool, bool, usize),
            ArgError,
        >((input, out, mode == "-c"@, mode == "-x"@, n as usize)),
{
    lemma_option_texts();
    lemma_decimal_thread_count(n);
    reveal_with_fuel(scan_args, 6);
}

/// `-t` with nothing after it is refused as missing its value.
pub proof fn lemma_threads_missing(name: Seq<char>, mode: Seq<char>, input: Seq<char>, out: Seq<char>)
    requires
        mode == "-c"@ || mode == "-x"@,
        !is_option(input),
    ensures
        args_outcome(seq![name, mode, "-o"@, out, input, "-t"@]) == Err::<
            (Seq<char>, Seq<char>, bool, bool, usize),
            ArgError,
        >(ArgError::MissingThreadsArg),
{
    lemma_option_texts();
    reveal_with_fuel(scan_args, 6);
}

/// `-t` followed by a text that is no thread count is refused as invalid.
pub proof fn lemma_threads_invalid(
    name: Seq<char>,
    mode: Seq<char>,
    value: Seq<char>,
    input: Seq<char>,
    out: Seq<char>,
)
    requires
        mode == "-c"@ || mode == "-x"@,
        thread_count(value) is None,
    ensures
        args_outcome(seq![name, mode, "-t"@, value, "-o"@, out, input]) == Err::<
            (Seq<char>, Seq<char>, bool, bool, usize),
            ArgError,
        >(ArgError::InvalidThreadsArg),
{
    lemma_option_texts();
    reveal_with_fuel(scan_args, 3);
}

/// Asking for both modes is a conflict; asking for neither is no mode.
pub proof fn lemma_mode_count(name: Seq<char>, input: Seq<char>, out: Seq<char>)
    requires
        !is_option(input),
    ensures
        args_outcome(seq![name, "-c"@, "-x"@, "-o"@, out, input]) == Err::<
            (Seq<char>, Seq<char>, bool, bool, usize),
            ArgError,
        >(ArgError::ConflictingModes),
        args_outcome(seq![name, "-o"@, out, input]) == Err::<
            (Seq<char>, Seq<char>, bool, bool, usize),
            ArgError,
        >(ArgError::NoModeSpecified),
{
    lemma_option_texts();
    reveal_with_fuel(scan_args, 6);
}

/// No text is read as a thread count of zero.
pub proof fn lemma_thread_count_positive(s: Seq<char>)
    ensures
        thread_count(s) matches Some(n) ==> n >= 1,
{
}

/// A text holding a character that is neither a decimal digit nor a
/// leading `+` is no thread count.
pub proof fn lemma_thread_count_rejects(s: Seq<char>, i: int)
    requires
        0 <= i < s.len(),
        !is_digit(s[i]),
        !(i == 0 && s[i] == '+'),
    ensures
        thread_count(s) is None,
{
    let d = unsigned_part(s);
    if s.len() > 0 && s[0] == '+' {
        assert(d[i - 1] == s[i]);
    } else {
        assert(d[i] == s[i]);
    }
}

/// A leading `+`, or leading zeros, do not change the number read.
pub proof fn lemma_thread_count_prefixes(n: nat, zeros: nat)
    requires
        1 <= n <= usize::MAX,
    ensures
        thread_count(seq!['+'] + decimal(n)) == Some(n as usize),
        thread_count(Seq::new(zeros, |i: int| '0') + decimal(n)) == Some(n as usize),
{
    lemma_decimal(n);
    assert((seq!['+'] + decimal(n))[0] == '+');
    assert(unsigned_part(seq!['+'] + decimal(n)) =~= decimal(n));
    let z = Seq::new(zeros, |i: int| '0');
    lemma_leading_zeros(z, decimal(n));
    assert((z + decimal(n))[0] != '+') by {
        if zeros > 0 {
            assert((z + decimal(n))[0] == '0');
        } else {
            assert(z + decimal(n) =~= decimal(n));
        }
    }
}

proof fn lemma_leading_zeros(z: Seq<char>, t: Seq<char>)
    requires
        forall|i: int| 0 <= i < z.len() ==> z[i] == '0',
        all_digits(t),
    ensures
        all_digits(z + t),
        digits_value(z + t) == digits_value(t),
    decreases t.len(),
{
    if t.len() == 0 {
        assert(z + t =~= z);
        lemma_zeros_value(z);
        assert forall|i: int| 0 <= i < (z + t).len() implies is_digit(#[trigger] (z + t)[i]) by {
            assert((z + t)[i] == '0');
        }
    } else {
        let r = t.drop_last();
        assert forall|i: int| 0 <= i < r.len() implies is_digit(#[trigger] r[i]) by {
            assert(r[i] == t[i]);
        }
        lemma_leading_zeros(z, r);
        assert((z + t).drop_last() =~= z + r);
        assert((z + t).last() == t.last());
        assert forall|i: int| 0 <= i < (z + t).len() implies is_digit(#[trigger] (z + t)[i]) by {
            if i < (z + t).len() - 1 {
                assert((z + t)[i] == (z + r)[i]);
            }
        }
    }
}

proof fn lemma_zeros_value(z: Seq<char>)
    requires
        forall|i: int| 0 <= i < z.len() ==> z[i] == '0',
    ensures
        digits_value(z) == 0,
    decreases z.len(),
{
    if z.len() > 0 {
        let r = z.drop_last();
        assert forall|i: int| 0 <= i < r.len() implies r[i] == '0' by {
            assert(r[i] == z[i]);
        }
        lemma_zeros_value(r);
        assert(z.last() == '0');
    }
}

pub const CHUNK_SIZE: usize = 8388608;

/// The number of chunks of `CHUNK_SIZE` bytes a file of `file_size` bytes
/// is read in, the last one possibly shorter.
pub open spec fn chunk_count(file_size: u64) -> int {
    if file_size == 0 {
        0
    } else {
        (file_size + CHUNK_SIZE - 1) / (CHUNK_SIZE as int)
    }
}

/// How many workers count a file of `file_size` bytes: no more than
/// `max_threads`, and no more than the file has chunks.
pub fn worker_count(file_size: u64, max_threads: usize) -> (threads: usize)
    requires
        file_size + CHUNK_SIZE <= u64::MAX,
    ensures
        threads == if (max_threads as int) <= (#[verifier::truncate] (chunk_count(file_size) as usize)) as int {
            max_threads
        } else {
            #[verifier::truncate] (chunk_count(file_size) as usize)
        },
{
    let chunks: usize = if file_size == 0 {
        0
    } else {
        #[verifier::truncate]
        (((file_size + CHUNK_SIZE as u64 - 1) / CHUNK_SIZE as u64) as usize)
    };
    if max_threads <= chunks {
        max_threads
    } else {
        chunks
    }
}

} // verus!
