//! Texts that the pipeline reports.

use vstd::prelude::*;

use crate::patterns::{
    captured_model, captured_models, find_all, group_or_empty, group_text, pattern_matches, Pattern,
};
use crate::text::{
    byte_prefix, chars_of, is_boundary, parse_u32, prefix_within, push_decimal, push_hex,
    push_signed, string_of, trim, trim_bounds, utf8_len,
};

verus! {

/// Seconds as minutes and seconds, or as seconds alone below one minute.
pub open spec fn uptime_text(secs: nat) -> Seq<char> {
    if secs < 60 {
        crate::text::decimal(secs) + "s"@
    } else {
        crate::text::decimal(secs / 60) + "m"@ + two_digits(secs % 60) + "s"@
    }
}

/// A number below one hundred in two digits.
pub open spec fn two_digits(n: nat) -> Seq<char> {
    if n < 10 {
        "0"@ + crate::text::decimal(n)
    } else {
        crate::text::decimal(n)
    }
}

/// A running time for people.
pub fn format_uptime(secs: u64) -> (s: String)
    ensures
        s@ == uptime_text(secs as nat),
{
    let mut s = String::new();
    if secs < 60 {
        push_decimal(&mut s, secs);
    } else {
        push_decimal(&mut s, secs / 60);
        s.push_str("m");
        if secs % 60 < 10 {
            s.push_str("0");
        }
        push_decimal(&mut s, secs % 60);
    }
    s.push_str("s");
    assert(s@ =~= uptime_text(secs as nat));
    s
}

/// What a status code of Windows stands for, where it is one of those that a
/// worker is known to end with.
pub open spec fn status_text(code: u32) -> Option<Seq<char>> {
    if code == 0xC0000005 {
        Some("0xC0000005 ACCESS_VIOLATION (segfault)"@)
    } else if code == 0xC0000017 {
        Some("0xC0000017 NO_MEMORY — probable OOM"@)
    } else if code == 0xC000009A {
        Some("0xC000009A INSUFFICIENT_RESOURCES — probable OOM"@)
    } else if code == 0xC00000D5 {
        Some("0xC00000D5 COMMITMENT_LIMIT — probable OOM"@)
    } else if code == 0xC000013A {
        Some("0xC000013A CONTROL_C_EXIT (user interrupted)"@)
    } else if code == 0xC0000142 {
        Some("0xC0000142 DLL_INIT_FAILED"@)
    } else if code == 0xC0000409 {
        Some("0xC0000409 STACK_BUFFER_OVERRUN"@)
    } else {
        None
    }
}

/// Description of an exit code: on Windows its status, elsewhere the number.
pub open spec fn exit_description(code: i32, windows: bool) -> Seq<char> {
    if windows {
        match status_text(code as u32) {
            Some(t) => t,
            None => "0x"@ + crate::text::hex(code as u32 as nat, 8, true),
        }
    } else {
        crate::text::signed_decimal(code as int)
    }
}

/// The final state of a worker that ended with `code`. On Windows a code with
/// the high bit set is a status and is described.
pub open spec fn exit_text(code: i32, windows: bool) -> Seq<char> {
    if windows && code as u32 >= 0x80000000 {
        "exited("@ + exit_description(code, windows) + ")"@
    } else {
        "exited("@ + crate::text::signed_decimal(code as int) + ")"@
    }
}

/// Describes an exit code of a worker, for a system that is Windows or not.
pub fn describe_exit_code(code: i32, windows: bool) -> (s: String)
    ensures
        s@ == exit_description(code, windows),
{
    let mut s = String::new();
    if windows {
        let status: u32 = #[verifier::truncate] (code as u32);
        match status {
            0xC0000005 => s.push_str("0xC0000005 ACCESS_VIOLATION (segfault)"),
            0xC0000017 => s.push_str("0xC0000017 NO_MEMORY — probable OOM"),
            0xC000009A => s.push_str("0xC000009A INSUFFICIENT_RESOURCES — probable OOM"),
            0xC00000D5 => s.push_str("0xC00000D5 COMMITMENT_LIMIT — probable OOM"),
            0xC000013A => s.push_str("0xC000013A CONTROL_C_EXIT (user interrupted)"),
            0xC0000142 => s.push_str("0xC0000142 DLL_INIT_FAILED"),
            0xC0000409 => s.push_str("0xC0000409 STACK_BUFFER_OVERRUN"),
            _ => {
                s.push_str("0x");
                push_hex(&mut s, status as u64, 8, true);
            },
        }
        assert(s@ =~= exit_description(code, windows));
    } else {
        push_signed(&mut s, code as i64);
        assert(s@ =~= exit_description(code, windows));
    }
    s
}

/// The final state of a worker that ended with `code`.
pub fn format_exit_code(code: i32, windows: bool) -> (s: String)
    ensures
        s@ == exit_text(code, windows),
{
    let mut s = String::new();
    s.push_str("exited(");
    let status: u32 = #[verifier::truncate] (code as u32);
    if windows && status >= 0x80000000 {
        let d = describe_exit_code(code, windows);
        s.push_str(d.as_str());
    } else {
        push_signed(&mut s, code as i64);
    }
    s.push_str(")");
    assert(s@ =~= exit_text(code, windows));
    s
}

/// Batch sizes joined by slashes.
pub open spec fn sizes_text(sizes: Seq<usize>) -> Seq<char>
    decreases sizes.len(),
{
    if sizes.len() == 0 {
        Seq::empty()
    } else if sizes.len() == 1 {
        crate::text::decimal(sizes[0] as nat)
    } else {
        sizes_text(sizes.drop_last()) + "/"@ + crate::text::decimal(sizes.last() as nat)
    }
}

/// Batch sizes in brackets, such as `[5/2/3]`.
pub fn format_batch_dist(sizes: &[usize]) -> (s: String)
    ensures
        s@ == "["@ + sizes_text(sizes@) + "]"@,
{
    let mut s = String::new();
    s.push_str("[");
    let mut i: usize = 0;
    while i < sizes.len()
        invariant
            i <= sizes@.len(),
            s@ == "["@ + sizes_text(sizes@.take(i as int)),
        decreases sizes@.len() - i,
    {
        if i > 0 {
            s.push_str("/");
        }
        push_decimal(&mut s, sizes[i] as u64);
        assert(sizes@.take(i + 1).drop_last() =~= sizes@.take(i as int));
        assert(s@ =~= "["@ + sizes_text(sizes@.take(i + 1)));
        i += 1;
    }
    assert(sizes@.take(i as int) =~= sizes@);
    s.push_str("]");
    s
}

/// The digits on the first line with a number of pages.
pub open spec fn pages_capture(text: Seq<char>) -> Option<Seq<char>> {
    let found = pattern_matches(Pattern::Pages, text);
    if found.len() == 0 {
        None
    } else {
        Some(group_or_empty(found[0].2, 0))
    }
}

/// The characters of an optional string.
pub open spec fn opt_chars(o: Option<String>) -> Option<Seq<char>> {
    match o {
        Some(s) => Some(s@),
        None => None,
    }
}

fn capture_pages(stdout: &str) -> (r: Option<String>)
    ensures
        opt_chars(r) == pages_capture(stdout@),
{
    let found = find_all(Pattern::Pages, stdout);
    assert(captured_models(found@).len() == found@.len());
    if found.len() == 0 {
        None
    } else {
        assert(captured_models(found@)[0] == captured_model(found@[0]));
        Some(group_text(&found[0], 0))
    }
}

/// A captured page count: a positive number of 32 bits.
pub open spec fn page_count_value(capture: Option<Seq<char>>) -> Option<nat> {
    match capture {
        Some(digits) => match crate::text::digits_value(digits, u32::MAX as nat) {
            Some(v) => if v > 0 {
                Some(v)
            } else {
                None
            },
            None => None,
        },
        None => None,
    }
}

/// An optional machine integer as a natural number.
pub open spec fn opt_nat(o: Option<u32>) -> Option<nat> {
    match o {
        Some(v) => Some(v as nat),
        None => None,
    }
}

/// The page count in captured digits.
pub fn page_count_of(capture: Option<String>) -> (n: Option<u32>)
    ensures
        opt_nat(n) == page_count_value(opt_chars(capture)),
{
    match capture {
        Some(digits) => {
            let chars = chars_of(digits.as_str());
            match parse_u32(&chars) {
                Some(v) => if v > 0 {
                    Some(v)
                } else {
                    None
                },
                None => None,
            }
        },
        None => None,
    }
}

/// The page count in the output of `mutool info` or `pdfinfo`.
pub fn extract_page_count_from_stdout(stdout: &str) -> (n: Option<u32>)
    ensures
        opt_nat(n) == page_count_value(pages_capture(stdout@)),
{
    page_count_of(capture_pages(stdout))
}

/// The page count of a document: that of the first tool whose output holds
/// one, and one page where none does.
pub fn get_pdf_page_count(mutool: Option<String>, pdfinfo: Option<String>) -> (n: u32)
    ensures
        n == {
            let first = match mutool {
                Some(out) => page_count_value(pages_capture(out@)),
                None => None,
            };
            let second = match pdfinfo {
                Some(out) => page_count_value(pages_capture(out@)),
                None => None,
            };
            match first {
                Some(v) => v,
                None => match second {
                    Some(v) => v,
                    None => 1,
                },
            }
        },
{
    if let Some(out) = mutool {
        if let Some(n) = extract_page_count_from_stdout(out.as_str()) {
            return n;
        }
    }
    if let Some(out) = pdfinfo {
        if let Some(n) = extract_page_count_from_stdout(out.as_str()) {
            return n;
        }
    }
    1
}

// ---------------------------------------------------------------------------
// What is said of a worker
// ---------------------------------------------------------------------------

/// The message for each task of a worker whose program does not exist.
pub fn worker_not_found_message(worker_path: &str) -> (s: String)
    ensures
        s@ == "worker not found: "@ + worker_path@,
{
    let mut s = String::new();
    s.push_str("worker not found: ");
    s.push_str(worker_path);
    assert(s@ =~= "worker not found: "@ + worker_path@);
    s
}

/// The message for each task of a worker that could not be started.
pub fn worker_launch_failed_message(worker_path: &str, error: &str) -> (s: String)
    ensures
        s@ == "worker launch failed ["@ + worker_path@ + "]: "@ + error@,
{
    let mut s = String::new();
    s.push_str("worker launch failed [");
    s.push_str(worker_path);
    s.push_str("]: ");
    s.push_str(error);
    assert(s@ =~= "worker launch failed ["@ + worker_path@ + "]: "@ + error@);
    s
}

/// The message for a frame whose checksum does not fit its data.
pub open spec fn crc_mismatch(expected: u32, actual: u32, len: nat) -> Seq<char> {
    "CRC mismatch: expected "@ + crate::text::hex(expected as nat, 8, false) + ", actual "@
        + crate::text::hex(actual as nat, 8, false) + " ("@ + crate::text::decimal(len)
        + " bytes)"@
}

/// The message for a frame whose checksum does not fit its data.
pub fn crc_mismatch_message(expected: u32, actual: u32, len: usize) -> (s: String)
    ensures
        s@ == crc_mismatch(expected, actual, len as nat),
{
    let mut s = String::new();
    s.push_str("CRC mismatch: expected ");
    push_hex(&mut s, expected as u64, 8, false);
    s.push_str(", actual ");
    push_hex(&mut s, actual as u64, 8, false);
    s.push_str(" (");
    push_decimal(&mut s, len as u64);
    s.push_str(" bytes)");
    assert(s@ =~= crc_mismatch(expected, actual, len as nat));
    s
}

/// How a worker ended: waiting for it failed, or it ended with a code that is
/// not that of success, or neither.
#[derive(Clone, Copy, PartialEq, Eq, Structural, Debug)]
pub enum WorkerExit {
    WaitFailed,
    Code(i32),
    Normal,
}

/// The final state of a worker.
pub fn final_state(exit: WorkerExit, windows: bool) -> (s: String)
    ensures
        s@ == match exit {
            WorkerExit::WaitFailed => "crashed"@,
            WorkerExit::Code(code) => exit_text(code, windows),
            WorkerExit::Normal => "exited(0)"@,
        },
{
    let mut s = String::new();
    match exit {
        WorkerExit::WaitFailed => {
            s.push_str("crashed");
            assert(s@ =~= "crashed"@);
        },
        WorkerExit::Code(code) => {
            s = format_exit_code(code, windows);
        },
        WorkerExit::Normal => {
            s.push_str("exited(0)");
            assert(s@ =~= "exited(0)"@);
        },
    }
    s
}

/// The most bytes of a worker's error output that a report holds.
pub const STDERR_LIMIT: usize = 120;

/// The part of a report that holds a worker's error output: nothing where it
/// is blank, and at most its first 120 bytes.
pub open spec fn stderr_part(stderr: Seq<char>) -> Seq<char> {
    let t = trim(stderr);
    if t.len() == 0 {
        Seq::empty()
    } else {
        " | stderr: "@ + byte_prefix(t, STDERR_LIMIT as nat)
    }
}

/// Whether the limit on a worker's error output falls between two characters.
pub open spec fn stderr_fits(stderr: Seq<char>) -> bool {
    let t = trim(stderr);
    utf8_len(t) <= STDERR_LIMIT || is_boundary(t, STDERR_LIMIT as nat)
}

/// The summary of a worker's run.
pub fn worker_summary(files_ok: u64, files_err: u64, secs: u64, stderr: &str) -> (s: String)
    requires
        stderr_fits(stderr@),
    ensures
        s@ == crate::text::decimal(files_ok as nat) + " ok, "@ + crate::text::decimal(
            files_err as nat,
        ) + " err, uptime "@ + uptime_text(secs as nat) + stderr_part(stderr@),
{
    let mut s = String::new();
    push_decimal(&mut s, files_ok);
    s.push_str(" ok, ");
    push_decimal(&mut s, files_err);
    s.push_str(" err, uptime ");
    let up = format_uptime(secs);
    s.push_str(up.as_str());
    let ghost head = s@;
    let v = chars_of(stderr);
    let (a, b) = trim_bounds(&v, 0, v.len());
    assert(v@.subrange(0, v@.len() as int) =~= v@);
    if a < b {
        s.push_str(" | stderr: ");
        let (k, n) = prefix_within(&v, a, b, STDERR_LIMIT);
        let cut = string_of(&v, a, k);
        s.push_str(cut.as_str());
    }
    assert(s@ =~= head + stderr_part(stderr@));
    assert(head =~= crate::text::decimal(files_ok as nat) + " ok, "@ + crate::text::decimal(
        files_err as nat,
    ) + " err, uptime "@ + uptime_text(secs as nat));
    s
}

/// One line on a worker process: thread, process, state, memory and the rest,
/// with bars between them.
pub fn process_line(thread: &str, pid: u32, state: &str, memory: &str, extra: &str) -> (s: String)
    ensures
        s@ == "PROC|"@ + thread@ + "|"@ + crate::text::decimal(pid as nat) + "|"@ + state@ + "|"@
            + memory@ + "|"@ + extra@,
{
    let mut s = String::new();
    s.push_str("PROC|");
    s.push_str(thread);
    s.push_str("|");
    push_decimal(&mut s, pid as u64);
    s.push_str("|");
    s.push_str(state);
    s.push_str("|");
    s.push_str(memory);
    s.push_str("|");
    s.push_str(extra);
    assert(s@ =~= "PROC|"@ + thread@ + "|"@ + crate::text::decimal(pid as nat) + "|"@ + state@
        + "|"@ + memory@ + "|"@ + extra@);
    s
}

/// A time below a minute is told in seconds, a longer one in minutes and the
/// seconds beyond them, which have two digits.
pub proof fn law_uptime(secs: nat)
    ensures
        secs < 60 ==> uptime_text(secs).drop_last() == crate::text::decimal(secs) && uptime_text(
            secs,
        ).last() == 's',
        secs >= 60 ==> {
            let t = uptime_text(secs);
            let n = t.len() as int;
            &&& n > 4
            &&& t[n - 1] == 's'
            &&& t[n - 4] == 'm'
            &&& '0' <= t[n - 3] <= '5'
            &&& '0' <= t[n - 2] <= '9'
            &&& crate::text::value_in_base(t.take(n - 4), 10) * 60 + (t[n - 3] as int - 0x30) * 10
                + (t[n - 2] as int - 0x30) == secs
        },
{
    reveal_strlit("s");
    reveal_strlit("m");
    reveal_strlit("0");
    assert("s"@ =~= seq!['s']);
    assert("m"@ =~= seq!['m']);
    assert("0"@ =~= seq!['0']);
    if secs < 60 {
        assert(uptime_text(secs).drop_last() =~= crate::text::decimal(secs));
    } else {
        let m = secs / 60;
        let r = secs % 60;
        let tens = crate::text::digit((r / 10) as int);
        let ones = crate::text::digit((r % 10) as int);
        assert(two_digits(r) =~= seq![tens, ones]) by {
            reveal_with_fuel(crate::text::decimal, 2);
            if r < 10 {
                assert(crate::text::decimal(r) =~= seq![ones]);
            } else {
                assert(crate::text::decimal(r / 10) =~= seq![tens]);
                assert(crate::text::decimal(r) =~= seq![tens, ones]);
            }
        }
        let t = uptime_text(secs);
        assert(t =~= crate::text::decimal(m) + seq!['m', tens, ones, 's']);
        crate::text::law_decimal(m);
        assert(t.take(t.len() - 4) =~= crate::text::decimal(m));
    }
}

/// The sizes of batches are told in their order, with a slash between each two.
pub proof fn law_sizes_text(sizes: Seq<usize>)
    ensures
        sizes_text(sizes) == crate::text::join(
            sizes.map_values(|n: usize| crate::text::decimal(n as nat)),
            seq!['/'],
        ),
    decreases sizes.len(),
{
    reveal_strlit("/");
    assert("/"@ =~= seq!['/']);
    let f = |n: usize| crate::text::decimal(n as nat);
    let all = sizes.map_values(f);
    if sizes.len() > 1 {
        law_sizes_text(sizes.drop_last());
        assert(all.drop_last() =~= sizes.drop_last().map_values(f));
        assert(all.last() == crate::text::decimal(sizes.last() as nat));
    } else if sizes.len() == 1 {
        assert(all[0] == crate::text::decimal(sizes[0] as nat));
    } else {
        assert(all =~= Seq::empty());
    }
}

/// A number of pages is told where digits of a number above zero, which fits,
/// were found; it is then that number.
pub proof fn law_page_count(capture: Option<Seq<char>>)
    ensures
        match capture {
            None => page_count_value(capture) is None,
            Some(digits) => {
                let is_number = digits.len() > 0 && (forall|i: int|
                    0 <= i < digits.len() ==> '0' <= #[trigger] digits[i] <= '9');
                let n = crate::text::value_in_base(digits, 10);
                page_count_value(capture) == if is_number && 0 < n <= u32::MAX {
                    Some(n as nat)
                } else {
                    None
                }
            },
        },
{
    if let Some(digits) = capture {
        crate::text::law_digits_read(digits, u32::MAX as nat);
    }
}

/// What a worker wrote on its error stream is told from its first character
/// that is not whitespace on, as much as a hundred and twenty bytes hold, and
/// without whitespace behind it where it is told whole. Of whitespace alone
/// nothing is told.
pub proof fn law_stderr_part(stderr: Seq<char>)
    ensures
        (forall|i: int| 0 <= i < stderr.len() ==> crate::text::is_white(#[trigger] stderr[i])) ==> stderr_part(
            stderr,
        ) == Seq::<char>::empty(),
        (exists|i: int| 0 <= i < stderr.len() && !crate::text::is_white(#[trigger] stderr[i])) ==> {
            let told = stderr_part(stderr).skip(11);
            let t = trim(stderr);
            &&& stderr_part(stderr) == " | stderr: "@ + told
            &&& vstd::utf8::encode_utf8(t).len() <= 120 ==> told == t
            &&& vstd::utf8::encode_utf8(t).len() > 120 ==> told.len() < t.len() && told == t.take(
                told.len() as int,
            ) && vstd::utf8::encode_utf8(told).len() <= 120 && vstd::utf8::encode_utf8(
                t.take(told.len() as int + 1),
            ).len() > 120
        },
{
    reveal_strlit(" | stderr: ");
    let (a, b) = crate::text::law_trim(stderr);
    let t = trim(stderr);
    if a < b {
        assert(!crate::text::is_white(stderr[a]));
        crate::text::law_byte_prefix(t, 120);
        assert(stderr_part(stderr).skip(11) =~= byte_prefix(t, 120));
    }
}

/// The number of pages is looked for in the first line that says it.
pub proof fn law_pages_capture(text: Seq<char>)
    ensures
        ({
            let found = pattern_matches(Pattern::Pages, text);
            match pages_capture(text) {
                None => found.len() == 0,
                Some(digits) => found.len() > 0 && (found[0].2.len() > 0 && found[0].2[0] is Some
                    ==> Some(digits) == found[0].2[0]),
            }
        }),
{
}

/// The message on a checksum that does not fit has the checksum that was sent,
/// the one that was computed, each with eight digits, and the length.
pub proof fn law_crc_mismatch(expected: u32, actual: u32, len: nat)
    ensures
        ({
            let m = crc_mismatch(expected, actual, len);
            let n = m.len() as int;
            &&& crate::text::value_in_base(m.subrange(23, 31), 16) == expected
            &&& crate::text::value_in_base(m.subrange(40, 48), 16) == actual
            &&& crate::text::value_in_base(m.subrange(50, n - 7), 10) == len
        }),
{
    reveal_strlit("CRC mismatch: expected ");
    reveal_strlit(", actual ");
    reveal_strlit(" (");
    reveal_strlit(" bytes)");
    crate::text::law_hex(expected as nat, 8, false);
    crate::text::law_hex(actual as nat, 8, false);
    crate::text::law_decimal(len);
    assert(vstd::arithmetic::power::pow(16, 8) == 0x1_0000_0000) by {
        reveal_with_fuel(vstd::arithmetic::power::pow, 9);
    }
    let m = crc_mismatch(expected, actual, len);
    let (x, y) = (expected as nat, actual as nat);
    vstd::arithmetic::div_mod::lemma_small_mod(x, 0x1_0000_0000);
    vstd::arithmetic::div_mod::lemma_small_mod(y, 0x1_0000_0000);
    assert(crate::text::value_in_base(crate::text::hex(x, 8, false), 16) == x);
    assert(crate::text::value_in_base(crate::text::hex(y, 8, false), 16) == y);
    assert(m.subrange(23, 31) =~= crate::text::hex(expected as nat, 8, false));
    assert(m.subrange(40, 48) =~= crate::text::hex(actual as nat, 8, false));
    assert(m.subrange(50, m.len() - 7) =~= crate::text::decimal(len));
}

/// On Windows a code below zero is told by its meaning, and one without a
/// known meaning by its eight digits; every other code is told as a number.
pub proof fn law_exit_text(code: i32)
    ensures
        exit_text(code, false) == "exited("@ + crate::text::signed_decimal(code as int) + ")"@,
        code >= 0 ==> exit_text(code, true) == "exited("@ + crate::text::signed_decimal(code as int)
            + ")"@,
        code < 0 ==> exit_text(code, true) == "exited("@ + exit_description(code, true) + ")"@,
        status_text(code as u32) is None ==> exit_description(code, true).take(2) == "0x"@
            && crate::text::value_in_base(exit_description(code, true).skip(2), 16) == code as u32,
        status_text(code as u32) is None ==> exit_description(code, true).len() == 10 && forall|
            i: int,
        |
            2 <= i < 10 ==> {
                let c = #[trigger] exit_description(code, true)[i];
                '0' <= c <= '9' || 'A' <= c <= 'F'
            },
        exit_description(code, false) == crate::text::signed_decimal(code as int),
{
    assert(code < 0 <==> code as u32 >= 0x8000_0000u32) by (bit_vector);
    let n = code as u32 as nat;
    if status_text(code as u32) is None {
        reveal_strlit("0x");
        crate::text::law_hex(n, 8, true);
        assert(vstd::arithmetic::power::pow(16, 8) == 0x1_0000_0000) by {
            reveal_with_fuel(vstd::arithmetic::power::pow, 9);
        }
        let d = exit_description(code, true);
        assert(d.take(2) =~= "0x"@);
        assert(d.skip(2) =~= crate::text::hex(n, 8, true));
        assert forall|i: int| 2 <= i < 10 implies ({
            let c = #[trigger] d[i];
            '0' <= c <= '9' || 'A' <= c <= 'F'
        }) by {
            assert(d[i] == crate::text::hex(n, 8, true)[i - 2]);
        }
    }
}

} // verus!
