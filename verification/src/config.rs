//! Deployment configurations and the decision rules that resolve one from
//! parsed settings.

use vstd::prelude::*;

verus! {

/// Possible configurations for the communication infrastructure.
pub enum Configuration {
    /// Use one thread.
    Thread,
    /// Use one process with an indicated number of threads.
    Process(usize),
    /// Expect multiple processes indicated by `(threads, process, host_list, report)`.
    Cluster(usize, usize, Vec<String>, bool),
}

/// The character for a single decimal digit.
pub open spec fn digit_char(d: nat) -> char {
    if d == 0 {
        '0'
    } else if d == 1 {
        '1'
    } else if d == 2 {
        '2'
    } else if d == 3 {
        '3'
    } else if d == 4 {
        '4'
    } else if d == 5 {
        '5'
    } else if d == 6 {
        '6'
    } else if d == 7 {
        '7'
    } else if d == 8 {
        '8'
    } else {
        '9'
    }
}

/// The decimal digit sequence of `n`, most significant first, no leading
/// zeros except for `n == 0` itself.
pub open spec fn decimal_digits(n: nat) -> Seq<char>
    decreases n,
{
    if n < 10 {
        seq![digit_char(n)]
    } else {
        decimal_digits(n / 10).push(digit_char(n % 10))
    }
}

/// The synthesized address for process `i`: `localhost:<2101 + i>`.
pub open spec fn synthesized_address(i: nat) -> Seq<char> {
    "localhost:"@ + decimal_digits(2101 + i)
}

/// Relies on String::push: appends one character to the string.
#[verifier::external_body]
fn string_push(s: &mut String, c: char)
    ensures
        final(s)@ == old(s)@.push(c),
{
    s.push(c);
}

/// Appends the decimal digits of `n` to the string.
fn push_decimal(s: &mut String, n: usize)
    ensures
        final(s)@ == old(s)@ + decimal_digits(n as nat),
    decreases n,
{
    if n >= 10 {
        push_decimal(s, n / 10);
    }
    let d: u8 = (n % 10) as u8;
    let c: char = (48 + d) as char;
    proof {
        assert(c == digit_char((n % 10) as nat));
    }
    string_push(s, c);
    proof {
        if n < 10 {
            assert(old(s)@ + decimal_digits(n as nat) =~= old(s)@.push(digit_char(n as nat)));
        } else {
            assert(old(s)@ + decimal_digits(n as nat) =~= (old(s)@ + decimal_digits(
                (n / 10) as nat,
            )).push(digit_char((n % 10) as nat)));
        }
    }
}

/// Builds the synthesized address for process `i`.
fn build_address(i: usize) -> (s: String)
    requires
        i <= usize::MAX - 2101,
    ensures
        s@ == synthesized_address(i as nat),
{
    let mut s = "localhost:".to_owned();
    proof {
        reveal_strlit("localhost:");
    }
    push_decimal(&mut s, 2101 + i);
    s
}

/// What a successfully resolved configuration must be, given the parsed
/// settings: cluster mode whenever several processes are expected (with the
/// host list truncated to the process count, or synthesized local addresses),
/// else one multi-threaded process, else a single thread.
pub open spec fn resolves_to(
    threads: usize,
    process: usize,
    processes: usize,
    hostfile_lines: Option<Vec<String>>,
    report: bool,
    c: Configuration,
) -> bool {
    if processes > 1 {
        match c {
            Configuration::Cluster(t, p, addresses, rep) => {
                &&& t == threads
                &&& p == process
                &&& rep == report
                &&& addresses@.len() == processes
                &&& (match hostfile_lines {
                    Some(lines) => addresses@ == lines@.take(processes as int),
                    None => forall|i: int|
                        0 <= i < processes ==> (#[trigger] addresses@[i])@
                            == synthesized_address(i as nat),
                })
            },
            _ => false,
        }
    } else if threads > 1 {
        c == Configuration::Process(threads)
    } else {
        c == Configuration::Thread
    }
}

impl Configuration {
    /// Resolves parsed settings into a configuration.
    ///
    /// Fails exactly when the process index is out of range, or when several
    /// processes are expected but the supplied host list has fewer lines than
    /// processes.
    pub fn assemble(
        threads: usize,
        process: usize,
        processes: usize,
        hostfile_lines: Option<Vec<String>>,
        report: bool,
    ) -> (r: Result<Configuration, String>)
        requires
            hostfile_lines is None && processes > 1 ==> processes <= usize::MAX - 2101,
        ensures
            (r is Err) == (process >= processes || (processes > 1
                && match hostfile_lines {
                Some(lines) => lines@.len() < processes,
                None => false,
            })),
            r matches Ok(c) ==> resolves_to(
                threads,
                process,
                processes,
                hostfile_lines,
                report,
                c,
            ),
    {
        if process >= processes {
            return Err("invalid process identity: not below the process count".to_owned());
        }
        if processes > 1 {
            match hostfile_lines {
                Some(mut lines) => {
                    if lines.len() < processes {
                        Err("could not read enough addresses for the expected processes".to_owned())
                    } else {
                        lines.truncate(processes);
                        Ok(Configuration::Cluster(threads, process, lines, report))
                    }
                },
                None => {
                    let mut addresses: Vec<String> = Vec::new();
                    let mut i: usize = 0;
                    while i < processes
                        invariant
                            0 <= i <= processes,
                            processes <= usize::MAX - 2101,
                            addresses@.len() == i,
                            forall|k: int|
                                0 <= k < i ==> (#[trigger] addresses@[k])@
                                    == synthesized_address(k as nat),
                        decreases processes - i,
                    {
                        let a = build_address(i);
                        addresses.push(a);
                        i = i + 1;
                    }
                    Ok(Configuration::Cluster(threads, process, addresses, report))
                },
            }
        } else if threads > 1 {
            Ok(Configuration::Process(threads))
        } else {
            Ok(Configuration::Thread)
        }
    }
}

} // verus!
