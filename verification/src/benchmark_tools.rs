//! What a benchmark records of its run, and how its parties connect.
//!
//! The functions here take what was read from processes, files and the
//! environment, and decide what is recorded.

use vstd::prelude::*;
use vstd::utf8::{decode_utf8, valid_utf8};

verus! {

/// Whether a character is whitespace: whether it has the property `White_Space`
/// of Unicode.
pub open spec fn white_space(c: char) -> bool {
    ||| '\u{9}' <= c <= '\u{d}'
    ||| c == ' '
    ||| c == '\u{85}'
    ||| c == '\u{a0}'
    ||| c == '\u{1680}'
    ||| '\u{2000}' <= c <= '\u{200a}'
    ||| c == '\u{2028}'
    ||| c == '\u{2029}'
    ||| c == '\u{202f}'
    ||| c == '\u{205f}'
    ||| c == '\u{3000}'
}

/// The characters after the leading whitespace.
pub open spec fn trimmed_start(s: Seq<char>) -> Seq<char>
    decreases s.len(),
{
    if s.len() > 0 && white_space(s[0]) {
        trimmed_start(s.skip(1))
    } else {
        s
    }
}

/// The characters before the trailing whitespace.
pub open spec fn trimmed_end(s: Seq<char>) -> Seq<char>
    decreases s.len(),
{
    if s.len() > 0 && white_space(s.last()) {
        trimmed_end(s.drop_last())
    } else {
        s
    }
}

/// The characters without leading and trailing whitespace.
pub open spec fn trimmed(s: Seq<char>) -> Seq<char> {
    trimmed_end(trimmed_start(s))
}

/// The decimal digit of a number below ten.
pub open spec fn decimal_digit(n: nat) -> char {
    if n == 0 {
        '0'
    } else if n == 1 {
        '1'
    } else if n == 2 {
        '2'
    } else if n == 3 {
        '3'
    } else if n == 4 {
        '4'
    } else if n == 5 {
        '5'
    } else if n == 6 {
        '6'
    } else if n == 7 {
        '7'
    } else if n == 8 {
        '8'
    } else {
        '9'
    }
}

/// A number in decimal.
pub open spec fn decimal(n: nat) -> Seq<char>
    decreases n,
{
    if n < 10 {
        seq![decimal_digit(n)]
    } else {
        decimal(n / 10).push(decimal_digit(n % 10))
    }
}

/// Calls `str::trim` of std, which leaves out leading and trailing whitespace as
/// Unicode defines it, and keeps all the characters between.
#[verifier::external_body]
fn trim(s: &str) -> (r: &str)
    ensures
        r@ == trimmed(s@),
{
    s.trim()
}

/// Calls `String::from_utf8` of std, which decodes exactly the byte sequences
/// that are valid UTF-8.
#[verifier::external_body]
fn decode(bytes: Vec<u8>) -> (r: Option<String>)
    ensures
        r is Some <==> valid_utf8(bytes@),
        r matches Some(s) ==> s@ == decode_utf8(bytes@),
{
    String::from_utf8(bytes).ok()
}

/// Calls `to_string` of std on a number, which writes it in decimal.
#[verifier::external_body]
fn to_decimal(n: u64) -> (r: String)
    ensures
        r@ == decimal(n as nat),
{
    n.to_string()
}

proof fn lemma_trimmed_start(s: Seq<char>)
    ensures
        trimmed_start(s).len() > 0 ==> !white_space(trimmed_start(s)[0]),
    decreases s.len(),
{
    if s.len() > 0 && white_space(s[0]) {
        lemma_trimmed_start(s.skip(1));
    }
}

proof fn lemma_trimmed_end(s: Seq<char>)
    requires
        s.len() > 0 ==> !white_space(s[0]),
    ensures
        trimmed_end(s).len() > 0 ==> !white_space(trimmed_end(s)[0]) && !white_space(
            trimmed_end(s).last(),
        ),
    decreases s.len(),
{
    if s.len() > 0 && white_space(s.last()) {
        lemma_trimmed_end(s.drop_last());
    }
}

/// Trimmed text has no whitespace around it.
pub proof fn law_trimmed(s: Seq<char>)
    ensures
        trimmed(s).len() > 0 ==> !white_space(trimmed(s)[0]) && !white_space(trimmed(s).last()),
        trimmed(trimmed(s)) == trimmed(s),
{
    lemma_trimmed_start(s);
    lemma_trimmed_end(trimmed_start(s));
}

proof fn lemma_trimmed_start_part(s: Seq<char>) -> (a: int)
    ensures
        0 <= a <= s.len(),
        trimmed_start(s) == s.skip(a),
        forall|i: int| 0 <= i < a ==> white_space(#[trigger] s[i]),
    decreases s.len(),
{
    if s.len() > 0 && white_space(s[0]) {
        let rest = s.skip(1);
        let a = lemma_trimmed_start_part(rest);
        assert(rest.skip(a) =~= s.skip(a + 1));
        assert forall|i: int| 0 <= i < a + 1 implies white_space(#[trigger] s[i]) by {
            if i > 0 {
                assert(white_space(rest[i - 1]));
            }
        }
        a + 1
    } else {
        assert(s.skip(0) =~= s);
        0
    }
}

proof fn lemma_trimmed_end_part(s: Seq<char>) -> (b: int)
    ensures
        0 <= b <= s.len(),
        trimmed_end(s) == s.take(b),
        forall|i: int| b <= i < s.len() ==> white_space(#[trigger] s[i]),
    decreases s.len(),
{
    if s.len() > 0 && white_space(s.last()) {
        let rest = s.drop_last();
        let b = lemma_trimmed_end_part(rest);
        assert(rest.take(b) =~= s.take(b));
        assert forall|i: int| b <= i < s.len() implies white_space(#[trigger] s[i]) by {
            if i < s.len() - 1 {
                assert(white_space(rest[i]));
            }
        }
        b
    } else {
        assert(s.take(s.len() as int) =~= s);
        s.len() as int
    }
}

/// Trimmed text is a part of the text, and around that part there is nothing but
/// whitespace.
pub proof fn law_trimmed_part(s: Seq<char>) -> (part: (int, int))
    ensures
        0 <= part.0 <= part.1 <= s.len(),
        trimmed(s) == s.subrange(part.0, part.1),
        forall|i: int| 0 <= i < part.0 ==> white_space(#[trigger] s[i]),
        forall|i: int| part.1 <= i < s.len() ==> white_space(#[trigger] s[i]),
{
    let a = lemma_trimmed_start_part(s);
    let rest = s.skip(a);
    let b = lemma_trimmed_end_part(rest);
    assert(rest.take(b) =~= s.subrange(a, a + b));
    assert forall|i: int| a + b <= i < s.len() implies white_space(#[trigger] s[i]) by {
        assert(white_space(rest[i - a]));
    }
    (a, a + b)
}

/// A number in decimal is made of digits.
proof fn lemma_decimal_digits(n: nat)
    ensures
        decimal(n).len() > 0,
        forall|i: int| 0 <= i < decimal(n).len() ==> !white_space(#[trigger] decimal(n)[i]),
    decreases n,
{
    if n >= 10 {
        lemma_decimal_digits(n / 10);
        assert forall|i: int| 0 <= i < decimal(n).len() implies !white_space(
            #[trigger] decimal(n)[i],
        ) by {
            if i < decimal(n / 10).len() {
                assert(decimal(n)[i] == decimal(n / 10)[i]);
            }
        }
    }
}

/// A number in decimal has no whitespace around it.
pub proof fn law_decimal_is_trimmed(n: nat)
    ensures
        decimal(n).len() > 0,
        trimmed(decimal(n)) == decimal(n),
{
    lemma_decimal_digits(n);
    assert(!white_space(decimal(n)[0]));
    assert(!white_space(decimal(n)[decimal(n).len() - 1]));
}

/// What is recorded of a run.
#[derive(Clone, Debug)]
pub struct BenchmarkMetaData {
    pub hostname: String,
    pub username: String,
    pub timestamp: String,
    pub cmdline: Vec<String>,
    pub pid: u32,
    pub git_version: String,
}

impl BenchmarkMetaData {
    /// The record of a run from its parts.
    pub fn collect(
        hostname: String,
        username: String,
        timestamp: String,
        cmdline: Vec<String>,
        pid: u32,
        git_version: String,
    ) -> (r: Self)
        ensures
            r.hostname == hostname,
            r.username == username,
            r.timestamp == timestamp,
            r.cmdline == cmdline,
            r.pid == pid,
            r.git_version == git_version,
    {
        BenchmarkMetaData { hostname, username, timestamp, cmdline, pid, git_version }
    }
}

/// What a process that ran has left.
pub struct CommandOutput {
    /// Whether it reported success.
    pub success: bool,
    /// What it wrote to its standard output.
    pub stdout: Vec<u8>,
}

/// Whether a process ran, succeeded, and wrote text that is more than
/// whitespace.
pub open spec fn wrote_text(output: Option<CommandOutput>) -> bool {
    match output {
        Some(out) => {
            &&& out.success
            &&& valid_utf8(out.stdout@)
            &&& trimmed(decode_utf8(out.stdout@)).len() > 0
        },
        None => false,
    }
}

/// The trimmed text that a process wrote; nothing where it did not run, failed,
/// or wrote no text.
pub fn try_run_command(output: Option<CommandOutput>) -> (r: Option<String>)
    ensures
        r is Some <==> wrote_text(output),
        r is Some <==> (output matches Some(out) && out.success && valid_utf8(out.stdout@)
            && trimmed(decode_utf8(out.stdout@)).len() > 0),
        r matches Some(text) ==> text@ == trimmed(decode_utf8(output->0.stdout@)),
{
    match output {
        None => None,
        Some(out) => {
            if !out.success {
                return None;
            }
            match decode(out.stdout) {
                None => None,
                Some(text) => {
                    let text = trim(text.as_str());
                    if text.is_empty() {
                        None
                    } else {
                        Some(text.to_owned())
                    }
                },
            }
        },
    }
}

/// The trimmed text that a process wrote.
pub fn run_command(stdout: Vec<u8>) -> (r: String)
    requires
        valid_utf8(stdout@),
    ensures
        r@ == trimmed(decode_utf8(stdout@)),
{
    match decode(stdout) {
        Some(text) => trim(text.as_str()).to_owned(),
        None => String::new(),
    }
}

/// The text where there is some.
fn non_empty(text: Option<String>) -> (r: Option<String>)
    ensures
        r is Some <==> is_set(text),
        r matches Some(t) ==> text == Some(t),
        r is Some <==> (text matches Some(t) && t@.len() > 0),
{
    match text {
        Some(t) => {
            if t.as_str().is_empty() {
                None
            } else {
                Some(t)
            }
        },
        None => None,
    }
}

/// Whether a variable is set and not empty.
pub open spec fn is_set(text: Option<String>) -> bool {
    text matches Some(t) && t@.len() > 0
}

/// The user's name as the environment gives it: the first of the two variables
/// that is set and not empty.
pub fn username_from_env(user: Option<String>, username: Option<String>) -> (r: Option<String>)
    ensures
        r == (if is_set(user) {
            user
        } else if is_set(username) {
            username
        } else {
            None
        }),
        (user matches Some(name) && name@.len() > 0) ==> r == user,
        !(user matches Some(name) && name@.len() > 0) ==> {
            &&& (username matches Some(name) && name@.len() > 0) ==> r == username
            &&& !(username matches Some(name) && name@.len() > 0) ==> r is None
        },
{
    match non_empty(user) {
        Some(name) => Some(name),
        None => non_empty(username),
    }
}

/// The user's name: as the environment gives it, else as a process does.
pub fn get_username(from_env: Option<String>, whoami: Option<String>) -> (r: String)
    ensures
        match (from_env, whoami) {
            (Some(name), _) => r == name,
            (None, Some(name)) => r == name,
            (None, None) => r@ == "unknown"@,
        },
{
    match from_env {
        Some(name) => name,
        None => match whoami {
            Some(name) => name,
            None => "unknown".to_owned(),
        },
    }
}

/// The machine's name as the system gives it: what the file holds, trimmed, else
/// what the variable holds; each only if it is not empty.
pub fn hostname_from_system(file: Option<String>, variable: Option<String>) -> (r: Option<String>)
    ensures
        match file {
            Some(text) => if trimmed(text@).len() > 0 {
                r is Some && r->0@ == trimmed(text@)
            } else {
                r == (if is_set(variable) {
                    variable
                } else {
                    None
                })
            },
            None => r == (if is_set(variable) {
                variable
            } else {
                None
            }),
        },
        !(file matches Some(text) && trimmed(text@).len() > 0) ==> {
            &&& (variable matches Some(name) && name@.len() > 0) ==> r == variable
            &&& !(variable matches Some(name) && name@.len() > 0) ==> r is None
        },
{
    match file {
        Some(text) => {
            let name = trim(text.as_str());
            if name.is_empty() {
                non_empty(variable)
            } else {
                Some(name.to_owned())
            }
        },
        None => non_empty(variable),
    }
}

/// The machine's name: as the system gives it, else as a process does.
pub fn get_hostname(from_system: Option<String>, hostname: Option<String>) -> (r: String)
    ensures
        match (from_system, hostname) {
            (Some(name), _) => r == name,
            (None, Some(name)) => r == name,
            (None, None) => r@ == "unknown"@,
        },
{
    match from_system {
        Some(name) => name,
        None => match hostname {
            Some(name) => name,
            None => "unknown".to_owned(),
        },
    }
}

/// The time of the run: as one process writes it, else as another does, else
/// the seconds since the epoch, else zero.
pub fn get_timestamp(
    local: Option<String>,
    universal: Option<String>,
    seconds_since_epoch: Option<u64>,
) -> (r: String)
    ensures
        match (local, universal, seconds_since_epoch) {
            (Some(text), _, _) => r == text,
            (None, Some(text), _) => r == text,
            (None, None, Some(seconds)) => r@ == decimal(seconds as nat),
            (None, None, None) => r@ == "0"@,
        },
        (local matches Some(text) ==> trimmed(text@) == text@) && (universal matches Some(text)
            ==> trimmed(text@) == text@) ==> trimmed(r@) == r@,
{
    proof {
        reveal_strlit("0");
        if seconds_since_epoch is Some {
            law_decimal_is_trimmed(seconds_since_epoch->0 as nat);
        }
        assert(trimmed("0"@) == "0"@);
    }
    match local {
        Some(text) => text,
        None => match universal {
            Some(text) => text,
            None => match seconds_since_epoch {
                Some(seconds) => to_decimal(seconds),
                None => "0".to_owned(),
            },
        },
    }
}

/// How far the first piece reaches: up to and with the first zero byte, or to
/// the end.
pub open spec fn piece_end(bytes: Seq<u8>) -> int
    decreases bytes.len(),
{
    if bytes.len() == 0 {
        0
    } else if bytes[0] == 0 {
        1
    } else {
        1 + piece_end(bytes.skip(1))
    }
}

/// The pieces that end in zero bytes, each without its last byte. A last piece
/// that no zero byte ends loses its last byte too.
pub open spec fn pieces(bytes: Seq<u8>) -> Seq<Seq<u8>>
    decreases bytes.len(),
{
    if bytes.len() == 0 {
        Seq::empty()
    } else {
        let n = piece_end(bytes);
        if 0 < n <= bytes.len() {
            seq![bytes.take(n - 1)] + pieces(bytes.skip(n))
        } else {
            Seq::empty()
        }
    }
}

proof fn lemma_piece_end(bytes: Seq<u8>, n: int)
    requires
        0 <= n < bytes.len(),
        forall|i: int| 0 <= i < n ==> bytes[i] != 0,
        bytes[n] == 0 || n == bytes.len() - 1,
    ensures
        piece_end(bytes) == n + 1,
    decreases bytes.len(),
{
    if n > 0 {
        assert forall|i: int| 0 <= i < n - 1 implies bytes.skip(1)[i] != 0 by {
            assert(bytes[i + 1] != 0);
        }
        assert(bytes.skip(1)[n - 1] == bytes[n]);
        lemma_piece_end(bytes.skip(1), n - 1);
        assert(bytes[0] != 0);
    } else if bytes[0] != 0 {
        assert(bytes.skip(1) =~= Seq::empty());
        assert(piece_end(bytes.skip(1)) == 0);
    }
}

/// Where the first zero byte of bytes that end in one stands.
proof fn lemma_first_zero(bytes: Seq<u8>)
    requires
        bytes.len() > 0,
        bytes.last() == 0,
    ensures
        0 < piece_end(bytes) <= bytes.len(),
        bytes[piece_end(bytes) - 1] == 0,
        forall|i: int| 0 <= i < piece_end(bytes) - 1 ==> #[trigger] bytes[i] != 0,
    decreases bytes.len(),
{
    if bytes[0] != 0 {
        let rest = bytes.skip(1);
        lemma_first_zero(rest);
        assert forall|i: int| 0 <= i < piece_end(bytes) - 1 implies #[trigger] bytes[i] != 0 by {
            if i > 0 {
                assert(rest[i - 1] != 0);
            }
        }
    }
}

/// Bytes that end in a zero byte are their pieces one after the other, each with a
/// zero byte behind it, and no piece holds a zero byte.
pub proof fn law_pieces_joined(bytes: Seq<u8>)
    requires
        bytes.len() > 0 ==> bytes.last() == 0,
    ensures
        pieces(bytes).map_values(|piece: Seq<u8>| piece.push(0)).flatten() == bytes,
        forall|i: int, j: int|
            0 <= i < pieces(bytes).len() && 0 <= j < pieces(bytes)[i].len()
                ==> #[trigger] pieces(bytes)[i][j] != 0,
    decreases bytes.len(),
{
    let closed_off = |piece: Seq<u8>| piece.push(0);
    let all = pieces(bytes).map_values(closed_off);
    if bytes.len() == 0 {
        assert(all =~= Seq::empty());
    } else {
        lemma_first_zero(bytes);
        let n = piece_end(bytes);
        let rest = bytes.skip(n);
        law_pieces_joined(rest);
        assert(pieces(bytes) == seq![bytes.take(n - 1)] + pieces(rest));
        assert(all.drop_first() =~= pieces(rest).map_values(closed_off));
        assert(all.first() =~= bytes.take(n));
        assert(bytes.take(n) + rest =~= bytes);
        assert forall|i: int, j: int|
            0 <= i < pieces(bytes).len() && 0 <= j < pieces(bytes)[i].len() implies
            #[trigger] pieces(bytes)[i][j] != 0 by {
            if i > 0 {
                assert(pieces(bytes)[i] == pieces(rest)[i - 1]);
                assert(pieces(rest)[i - 1][j] != 0);
            } else {
                assert(bytes[j] != 0);
            }
        }
    }
}

proof fn lemma_last_byte(bytes: Seq<u8>)
    requires
        bytes.len() > 0,
    ensures
        piece_end(bytes) == piece_end(bytes.drop_last().push(0)),
        0 < piece_end(bytes) <= bytes.len(),
    decreases bytes.len(),
{
    let other = bytes.drop_last().push(0);
    if bytes.len() == 1 {
        assert(bytes.skip(1) =~= Seq::empty());
        assert(piece_end(bytes.skip(1)) == 0);
    } else {
        assert(other.skip(1) =~= bytes.skip(1).drop_last().push(0));
        lemma_last_byte(bytes.skip(1));
    }
}

/// The last byte ends the last piece, whatever it is.
pub proof fn law_last_piece(bytes: Seq<u8>)
    requires
        bytes.len() > 0,
    ensures
        pieces(bytes) == pieces(bytes.drop_last().push(0)),
    decreases bytes.len(),
{
    let other = bytes.drop_last().push(0);
    lemma_last_byte(bytes);
    let n = piece_end(bytes);
    assert(bytes.take(n - 1) =~= other.take(n - 1));
    if n < bytes.len() {
        assert(other.skip(n) =~= bytes.skip(n).drop_last().push(0));
        law_last_piece(bytes.skip(n));
    } else {
        assert(other.skip(n) =~= bytes.skip(n));
    }
}

/// The bytes of the command line in pieces.
pub fn split_pieces(bytes: &Vec<u8>) -> (r: Vec<Vec<u8>>)
    ensures
        r@.len() == pieces(bytes@).len(),
        forall|i: int| 0 <= i < r@.len() ==> (#[trigger] r@[i])@ == pieces(bytes@)[i],
{
    let mut out: Vec<Vec<u8>> = Vec::new();
    let mut start: usize = 0;
    let ghost all = pieces(bytes@);
    assert(bytes@.skip(0) =~= bytes@);
    while start < bytes.len()
        invariant
            start <= bytes@.len(),
            all == pieces(bytes@),
            out@.len() + pieces(bytes@.skip(start as int)).len() == all.len(),
            forall|i: int| 0 <= i < out@.len() ==> (#[trigger] out@[i])@ == all[i],
            forall|i: int|
                0 <= i < pieces(bytes@.skip(start as int)).len() ==> pieces(
                    bytes@.skip(start as int),
                )[i] == all[out@.len() + i],
        decreases bytes@.len() - start,
    {
        let ghost rest = bytes@.skip(start as int);
        let mut piece: Vec<u8> = Vec::new();
        let mut end: usize = start;
        while end < bytes.len() - 1 && bytes[end] != 0
            invariant
                start <= end < bytes@.len(),
                rest == bytes@.skip(start as int),
                piece@ == rest.take(end - start),
                forall|i: int| 0 <= i < end - start ==> rest[i] != 0,
            decreases bytes@.len() - end,
        {
            assert(rest.take(end - start + 1) =~= rest.take(end - start).push(bytes@[end as int]));
            piece.push(bytes[end]);
            end = end + 1;
        }
        proof {
            let n = end - start;
            lemma_piece_end(rest, n);
            let tail = pieces(rest.skip(n + 1));
            assert(pieces(rest) == seq![rest.take(n)] + tail);
            assert(rest.skip(n + 1) =~= bytes@.skip(end + 1));
            assert(pieces(rest)[0] == rest.take(n));
            assert(all[out@.len() as int] == rest.take(n));
            assert forall|i: int| 0 <= i < tail.len() implies tail[i] == all[out@.len() + 1
                + i] by {
                assert(pieces(rest)[i + 1] == tail[i]);
                assert(pieces(rest)[i + 1] == all[out@.len() + (i + 1)]);
            }
        }
        out.push(piece);
        start = end + 1;
    }
    assert(pieces(bytes@.skip(start as int)) =~= Seq::empty());
    out
}

/// The command line: what the file holds, in pieces that end in zero bytes, or
/// the arguments where there is no file or nothing in it.
pub fn get_cmdline(file: Option<Vec<u8>>, args: Vec<String>) -> (r: Vec<String>)
    requires
        file matches Some(bytes) ==> forall|i: int|
            0 <= i < pieces(bytes@).len() ==> valid_utf8(#[trigger] pieces(bytes@)[i]),
    ensures
        match file {
            Some(bytes) => if pieces(bytes@).len() > 0 {
                &&& r@.len() == pieces(bytes@).len()
                &&& forall|i: int|
                    0 <= i < r@.len() ==> (#[trigger] r@[i])@ == decode_utf8(pieces(bytes@)[i])
            } else {
                r == args
            },
            None => r == args,
        },
{
    match file {
        Some(bytes) => {
            let split = split_pieces(&bytes);
            let mut out: Vec<String> = Vec::new();
            let mut i: usize = 0;
            while i < split.len()
                invariant
                    i <= split@.len(),
                    split@.len() == pieces(bytes@).len(),
                    forall|j: int|
                        0 <= j < split@.len() ==> (#[trigger] split@[j])@ == pieces(bytes@)[j],
                    forall|j: int|
                        0 <= j < pieces(bytes@).len() ==> valid_utf8(#[trigger] pieces(bytes@)[j]),
                    out@.len() == i,
                    forall|j: int|
                        0 <= j < i ==> (#[trigger] out@[j])@ == decode_utf8(pieces(bytes@)[j]),
                decreases split@.len() - i,
            {
                let piece: Vec<u8> = crate::mpc_conv::copy_vec(&split[i]);
                assert(piece@ == pieces(bytes@)[i as int]);
                match decode(piece) {
                    Some(text) => out.push(text),
                    None => out.push(String::new()),
                }
                i = i + 1;
            }
            if out.len() > 0 {
                out
            } else {
                args
            }
        },
        None => args,
    }
}

/// Which side of a proof a benchmark runs.
#[derive(Debug, Clone, Copy, PartialEq, Eq, Structural)]
pub enum Party {
    Prover,
    Verifier,
    Both,
}

impl Party {
    /// The name of the side.
    pub fn to_string(&self) -> (r: String)
        ensures
            *self is Prover ==> r@ == "Prover"@,
            *self is Verifier ==> r@ == "Verifier"@,
            *self is Both ==> r@ == "Both"@,
    {
        match self {
            Party::Prover => "Prover".to_owned(),
            Party::Verifier => "Verifier".to_owned(),
            Party::Both => "Both".to_owned(),
        }
    }
}

/// How the parties connect.
#[derive(Debug, Clone)]
pub struct NetworkOptions {
    /// Listen for incoming connections
    pub listen: bool,
    /// Which address to listen on/to connect to
    pub host: String,
    /// Which port to listen on/to connect to
    pub port: u16,
    /// How long to try connecting before aborting
    pub connect_timeout_seconds: usize,
}

impl Default for NetworkOptions {
    /// The options that hold where none are given.
    fn default() -> (r: Self)
        ensures
            !r.listen,
            r.host@ == "localhost"@,
            r.port == 1337,
            r.connect_timeout_seconds == 100,
    {
        NetworkOptions {
            listen: false,
            host: "localhost".to_owned(),
            port: 1337,
            connect_timeout_seconds: 100,
        }
    }
}

/// What a party that connects does after some attempts have failed.
#[derive(Debug, Clone, Copy, PartialEq, Eq, Structural)]
pub enum AttemptStep {
    /// It tries, and where that fails, it waits a tenth of a second.
    WaitAndRetry,
    /// It tries for the last time.
    LastTry,
    /// It tries no more.
    GiveUp,
}

/// What a party that connects does after `failed` attempts have failed: it waits
/// between the first `attempts` of them and tries once more after that.
pub fn next_attempt(failed: usize, attempts: usize) -> (r: AttemptStep)
    ensures
        failed < attempts ==> r is WaitAndRetry,
        failed == attempts ==> r is LastTry,
        failed > attempts ==> r is GiveUp,
{
    if failed < attempts {
        AttemptStep::WaitAndRetry
    } else if failed == attempts {
        AttemptStep::LastTry
    } else {
        AttemptStep::GiveUp
    }
}

/// What a party does next to get a connection.
#[derive(Debug, Clone, Copy, PartialEq, Eq, Structural)]
pub enum NetworkStep {
    /// It takes the address that it listens on.
    Bind,
    /// It waits for the other party.
    Accept,
    /// It tries to reach the other party, and waits a tenth of a second where
    /// that fails.
    Connect,
    /// It tries to reach the other party for the last time.
    LastConnect,
    /// The connection is there.
    Connected,
    /// There is no connection.
    Failed,
}

/// How far a party has got in getting a connection.
pub struct SetupView {
    pub listen: bool,
    pub host: Seq<char>,
    pub port: u16,
    /// After how many failed attempts the last one is made.
    pub attempts: int,
    /// Whether the address to listen on has been taken.
    pub bound: bool,
    /// How often something has failed.
    pub failed: int,
    pub connected: bool,
}

impl SetupView {
    /// A party with the given options before its first step.
    pub open spec fn start(options: NetworkOptions) -> SetupView {
        SetupView {
            listen: options.listen,
            host: options.host@,
            port: options.port,
            attempts: if options.listen {
                0
            } else {
                10 * options.connect_timeout_seconds
            },
            bound: false,
            failed: 0,
            connected: false,
        }
    }

    /// What the party does next, at its host and port.
    pub open spec fn next_step(self) -> NetworkStep {
        if self.connected {
            NetworkStep::Connected
        } else if self.listen {
            if self.failed > 0 {
                NetworkStep::Failed
            } else if self.bound {
                NetworkStep::Accept
            } else {
                NetworkStep::Bind
            }
        } else if self.failed < self.attempts {
            NetworkStep::Connect
        } else if self.failed == self.attempts {
            NetworkStep::LastConnect
        } else {
            NetworkStep::Failed
        }
    }

    /// How far it has got after that, where it `worked` or not.
    pub open spec fn after(self, worked: bool) -> SetupView {
        match self.next_step() {
            NetworkStep::Connected => self,
            NetworkStep::Failed => self,
            NetworkStep::Bind => if worked {
                SetupView { bound: true, ..self }
            } else {
                SetupView { failed: self.failed + 1, ..self }
            },
            _ => if worked {
                SetupView { connected: true, ..self }
            } else {
                SetupView { failed: self.failed + 1, ..self }
            },
        }
    }
}

/// How far a party is after the outcomes of its first steps.
pub open spec fn setup_after(start: SetupView, outcomes: Seq<bool>) -> SetupView
    decreases outcomes.len(),
{
    if outcomes.len() == 0 {
        start
    } else {
        setup_after(start, outcomes.drop_last()).after(outcomes.last())
    }
}

/// A party that is getting a connection.
pub struct NetworkSetup {
    listen: bool,
    host: String,
    port: u16,
    attempts: usize,
    bound: bool,
    failed: usize,
    given_up: bool,
    connected: bool,
}

impl View for NetworkSetup {
    type V = SetupView;

    closed spec fn view(&self) -> SetupView {
        SetupView {
            listen: self.listen,
            host: self.host@,
            port: self.port,
            attempts: self.attempts as int,
            bound: self.bound,
            failed: self.failed + (if self.given_up {
                1int
            } else {
                0int
            }),
            connected: self.connected,
        }
    }
}

impl NetworkSetup {
    #[verifier::type_invariant]
    closed spec fn inv(&self) -> bool {
        &&& self.failed <= self.attempts
        &&& self.given_up ==> self.listen || self.failed == self.attempts
        &&& self.listen ==> self.failed == 0
    }

    /// The address to listen on or to connect to.
    pub fn host(&self) -> (r: &String)
        ensures
            r@ == self@.host,
    {
        &self.host
    }

    /// The port to listen on or to connect to.
    pub fn port(&self) -> (r: u16)
        ensures
            r == self@.port,
    {
        self.port
    }

    /// What the party does next.
    pub fn next_step(&self) -> (r: NetworkStep)
        ensures
            r == self@.next_step(),
    {
        proof {
            use_type_invariant(self);
        }
        if self.connected {
            NetworkStep::Connected
        } else if self.given_up {
            NetworkStep::Failed
        } else if self.listen {
            if self.bound {
                NetworkStep::Accept
            } else {
                NetworkStep::Bind
            }
        } else {
            match next_attempt(self.failed, self.attempts) {
                AttemptStep::WaitAndRetry => NetworkStep::Connect,
                AttemptStep::LastTry => NetworkStep::LastConnect,
                AttemptStep::GiveUp => NetworkStep::Failed,
            }
        }
    }

    /// Records whether it worked.
    pub fn advance(&mut self, worked: bool)
        ensures
            final(self)@ == old(self)@.after(worked),
    {
        let step = self.next_step();
        proof {
            use_type_invariant(&*self);
        }
        match step {
            NetworkStep::Connected | NetworkStep::Failed => {},
            NetworkStep::Bind => {
                if worked {
                    self.bound = true;
                } else {
                    self.given_up = true;
                }
            },
            NetworkStep::Connect => {
                if worked {
                    self.connected = true;
                } else {
                    self.failed = self.failed + 1;
                }
            },
            NetworkStep::Accept | NetworkStep::LastConnect => {
                if worked {
                    self.connected = true;
                } else {
                    self.given_up = true;
                }
            },
        }
    }
}

/// Starts getting a connection with the given options.
pub fn setup_network(options: &NetworkOptions) -> (r: NetworkSetup)
    requires
        !options.listen ==> 10 * options.connect_timeout_seconds <= usize::MAX,
    ensures
        r@ == SetupView::start(*options),
{
    let attempts: usize = if options.listen {
        0
    } else {
        10 * options.connect_timeout_seconds
    };
    NetworkSetup {
        listen: options.listen,
        host: options.host.as_str().to_owned(),
        port: options.port,
        attempts,
        bound: false,
        failed: 0,
        given_up: false,
        connected: false,
    }
}

/// Where a party listens: it never connects itself, and has a connection exactly
/// once it could take its address and accept the other party.
pub proof fn law_listening(options: NetworkOptions, outcomes: Seq<bool>)
    requires
        options.listen,
    ensures
        ({
            let s = setup_after(SetupView::start(options), outcomes);
            let step = s.next_step();
            &&& s.host == options.host@
            &&& s.port == options.port
            &&& !(step is Connect) && !(step is LastConnect)
            &&& step is Bind <==> outcomes.len() == 0
            &&& step is Accept <==> outcomes.len() == 1 && outcomes[0]
            &&& step is Connected <==> outcomes.len() >= 2 && outcomes[0] && outcomes[1]
            &&& step is Failed <==> (outcomes.len() >= 1 && !outcomes[0]) || (outcomes.len() >= 2
                && outcomes[0] && !outcomes[1])
        }),
{
    lemma_listening(SetupView::start(options), outcomes);
}

proof fn lemma_listening(start: SetupView, outcomes: Seq<bool>)
    requires
        start.listen,
        !start.bound,
        start.failed == 0,
        !start.connected,
    ensures
        ({
            let s = setup_after(start, outcomes);
            let n = outcomes.len();
            &&& s.listen
            &&& s.host == start.host
            &&& s.port == start.port
            &&& s.bound == (n >= 1 && outcomes[0])
            &&& s.connected == (n >= 2 && outcomes[0] && outcomes[1])
            &&& s.failed >= 0
            &&& (s.failed > 0) == ((n >= 1 && !outcomes[0]) || (n >= 2 && outcomes[0]
                && !outcomes[1]))
        }),
    decreases outcomes.len(),
{
    if outcomes.len() > 0 {
        let before = outcomes.drop_last();
        lemma_listening(start, before);
        if before.len() >= 1 {
            assert(before[0] == outcomes[0]);
        }
        if before.len() >= 2 {
            assert(before[1] == outcomes[1]);
        }
    }
}

/// Where a party connects: it never listens, makes at most one attempt more than
/// there are tenths of a second to wait, has a connection exactly once one of
/// these attempts worked, and fails exactly where all of them have failed.
pub proof fn law_connecting(options: NetworkOptions, outcomes: Seq<bool>)
    requires
        !options.listen,
    ensures
        ({
            let s = setup_after(SetupView::start(options), outcomes);
            let step = s.next_step();
            let attempts = 10 * options.connect_timeout_seconds;
            &&& s.host == options.host@
            &&& s.port == options.port
            &&& !(step is Bind) && !(step is Accept)
            &&& step is Connected <==> exists|k: int|
                0 <= k < outcomes.len() && k <= attempts && #[trigger] outcomes[k]
            &&& step is Failed <==> outcomes.len() > attempts && forall|k: int|
                0 <= k <= attempts ==> !#[trigger] outcomes[k]
            &&& step is Connect || step is LastConnect ==> outcomes.len() <= attempts
            &&& step is Connect <==> outcomes.len() < attempts && forall|k: int|
                0 <= k < outcomes.len() ==> !#[trigger] outcomes[k]
            &&& step is LastConnect <==> outcomes.len() == attempts && forall|k: int|
                0 <= k < outcomes.len() ==> !#[trigger] outcomes[k]
        }),
{
    let start = SetupView::start(options);
    lemma_connecting(start, outcomes);
    if setup_after(start, outcomes).connected {
        let k = choose|k: int|
            0 <= k < outcomes.len() && k <= start.attempts && #[trigger] outcomes[k];
        assert(outcomes[k]);
    }
}

proof fn lemma_connecting(start: SetupView, outcomes: Seq<bool>)
    requires
        !start.listen,
        start.attempts >= 0,
        start.failed == 0,
        !start.connected,
    ensures
        ({
            let s = setup_after(start, outcomes);
            &&& !s.listen
            &&& s.host == start.host
            &&& s.port == start.port
            &&& s.attempts == start.attempts
            &&& s.connected ==> exists|k: int|
                0 <= k < outcomes.len() && k <= start.attempts && #[trigger] outcomes[k]
            &&& !s.connected ==> {
                &&& forall|k: int|
                    0 <= k < outcomes.len() && k <= start.attempts ==> !#[trigger] outcomes[k]
                &&& s.failed == (if outcomes.len() <= start.attempts {
                    outcomes.len() as int
                } else {
                    start.attempts + 1
                })
            }
        }),
    decreases outcomes.len(),
{
    if outcomes.len() > 0 {
        let before = outcomes.drop_last();
        lemma_connecting(start, before);
        let (r, s) = (setup_after(start, before), setup_after(start, outcomes));
        let n = before.len() as int;
        if s.connected {
            if r.connected {
                let k = choose|k: int|
                    0 <= k < before.len() && k <= start.attempts && #[trigger] before[k];
                assert(outcomes[k]);
            } else {
                assert(outcomes[n]);
            }
        } else {
            assert forall|k: int| 0 <= k < outcomes.len() && k <= start.attempts implies
                !#[trigger] outcomes[k] by {
                if k < n {
                    assert(!before[k]);
                }
            }
        }
    }
}

/// The field of a benchmark.
#[derive(Debug, Clone, Copy, PartialEq, Eq, Structural)]
pub enum FieldParameter {
    F40b,
    F61p,
}

impl FieldParameter {
    /// The name of the field.
    pub fn to_string(&self) -> (r: String)
        ensures
            *self is F40b ==> r@ == "F40b"@,
            *self is F61p ==> r@ == "F61p"@,
    {
        match self {
            FieldParameter::F40b => "F40b".to_owned(),
            FieldParameter::F61p => "F61p".to_owned(),
        }
    }
}

} // verus!
