//! Reading the output of the system `ping` command, which works without
//! admin rights on all platforms. Running the command is left to the
//! program around the library.

use vstd::prelude::*;
use super::PingReply;
use crate::text::{
    chars_of, contains, contains_chars, extend_chars, find, find_chars, lemma_contains_part,
    lemma_find_from, lines, occurs_at,
    parse_millis, parse_millis_chars, slice_copy, split_lines, string_of, views,
};

verus! {

/// Length of the leading run of digits and decimal points.
pub open spec fn number_len(s: Seq<char>) -> nat
    decreases s.len(),
{
    if s.len() > 0 && (('0' <= s[0] && s[0] <= '9') || s[0] == '.') {
        1 + number_len(s.drop_first())
    } else {
        0
    }
}

proof fn lemma_number_len(s: Seq<char>)
    ensures
        number_len(s) <= s.len(),
        forall|k: int|
            0 <= k < number_len(s) ==> (('0' <= #[trigger] s[k] && s[k] <= '9') || s[k] == '.'),
        number_len(s) < s.len() ==> !(('0' <= s[number_len(s) as int] && s[number_len(s) as int]
            <= '9') || s[number_len(s) as int] == '.'),
    decreases s.len(),
{
    if number_len(s) > 0 {
        lemma_number_len(s.drop_first());
        assert forall|k: int| 0 <= k < number_len(s) implies (('0' <= #[trigger] s[k] && s[k]
            <= '9') || s[k] == '.') by {
            if k > 0 {
                assert(s[k] == s.drop_first()[k - 1]);
            }
        }
    }
}

/// The reply time that one output line reports: the number right after the
/// first `time=` (Windows `time=12ms`, Linux and macOS `time=12.3 ms`), or
/// half a millisecond for Windows' `time<1ms`.
pub open spec fn line_rtt(line: Seq<char>) -> Option<u32> {
    let after_time = match find(line, "time="@) {
        Some(p) => {
            let rest = line.skip(p + 5);
            parse_millis(rest.take(number_len(rest) as int))
        },
        None => None,
    };
    if after_time is Some {
        after_time
    } else if contains(line, "time<1ms"@) {
        Some(500)
    } else {
        None
    }
}

/// The reply time of the first line that reports one.
pub open spec fn first_rtt(ls: Seq<Seq<char>>) -> Option<u32>
    decreases ls.len(),
{
    if ls.len() == 0 {
        None
    } else if line_rtt(ls[0]) is Some {
        line_rtt(ls[0])
    } else {
        first_rtt(ls.drop_first())
    }
}

/// The output reports a lost request.
pub open spec fn reports_timeout(s: Seq<char>) -> bool {
    contains(s, "Request timed out"@) || contains(s, "100% packet loss"@)
}

fn line_rtt_exec(line: &[char]) -> (r: Option<u32>)
    ensures
        r == line_rtt(line@),
{
    let time_eq = chars_of("time=");
    proof {
        reveal_strlit("time=");
    }
    assert(time_eq@.len() == 5);
    match find_chars(line, &time_eq) {
        Some(p) => {
            proof {
                lemma_find_from(line@, time_eq@, 0);
                assert(occurs_at(line@, time_eq@, p as int));
            }
            assert(p + 5 <= line.len());
            let mut end = p + 5;
            while end < line.len() && (('0' <= line[end] && line[end] <= '9') || line[end] == '.')
                invariant
                    p + 5 <= end <= line@.len(),
                    forall|k: int|
                        p + 5 <= k < end ==> (('0' <= #[trigger] line@[k] && line@[k] <= '9')
                            || line@[k] == '.'),
                decreases line.len() - end,
            {
                end = end + 1;
            }
            proof {
                let rest = line@.skip(p + 5);
                lemma_number_len(rest);
                assert(number_len(rest) == end - (p + 5)) by {
                    if number_len(rest) < end - (p + 5) {
                        assert(rest[number_len(rest) as int] == line@[p + 5 + number_len(rest)]);
                    } else if number_len(rest) > end - (p + 5) {
                        assert(rest[end - (p + 5)] == line@[end as int]);
                    }
                }
                assert(rest.take(number_len(rest) as int) =~= line@.subrange(p + 5, end as int));
            }
            let num = slice_copy(line, p + 5, end);
            if let Some(ms) = parse_millis_chars(&num) {
                return Some(ms);
            }
        },
        None => {},
    }
    let below = chars_of("time<1ms");
    if contains_chars(line, &below) {
        Some(500)
    } else {
        None
    }
}

/// Reads the reply time out of the output of a successful `ping` run.
///
/// Windows: "Reply from x.x.x.x: bytes=32 time=12ms TTL=56";
/// Windows below 1 ms: "Reply from x.x.x.x: bytes=32 time<1ms TTL=128";
/// Linux and macOS: "64 bytes from x.x.x.x: icmp_seq=1 ttl=56 time=12.3 ms".
/// The first line that reports a time gives the reply; with none, an output
/// that reports a lost request is a timeout, and any other a reply of 0 ms.
pub fn parse_rtt(output: &str) -> (r: PingReply)
    ensures
        match first_rtt(lines(output@)) {
            Some(t) => r == PingReply::Reply { rtt_us: t },
            None => if reports_timeout(output@) {
                r == PingReply::Timeout
            } else {
                r == PingReply::Reply { rtt_us: 0 }
            },
        },
{
    let text = chars_of(output);
    let ls = split_lines(&text);
    let ghost all = views(ls@);
    assert(all.skip(0) =~= all);
    for k in 0..ls.len()
        invariant
            all == views(ls@),
            all == lines(output@),
            first_rtt(all) == first_rtt(all.skip(k as int)),
    {
        assert(all.skip(k as int).drop_first() =~= all.skip(k + 1));
        assert(all.skip(k as int)[0] == ls@[k as int]@);
        if let Some(t) = line_rtt_exec(&ls[k]) {
            return PingReply::Reply { rtt_us: t };
        }
    }
    assert(all.skip(ls@.len() as int) =~= Seq::<Seq<char>>::empty());
    if contains_chars(&text, &chars_of("Request timed out")) || contains_chars(
        &text,
        &chars_of("100% packet loss"),
    ) {
        return PingReply::Timeout;
    }
    PingReply::Reply { rtt_us: 0 }
}

/// A failed run reports a lost request.
pub open spec fn failure_is_timeout(s: Seq<char>) -> bool {
    contains(s, "timed out"@) || contains(s, "100% packet loss"@) || contains(s, "100% loss"@)
}

/// The message of a failed run: its last output line.
pub open spec fn failure_message(s: Seq<char>) -> Seq<char> {
    "ping failed: "@ + if lines(s).len() > 0 {
        lines(s).last()
    } else {
        "unknown error"@
    }
}

/// What one run of the system `ping` command means, from its standard
/// output and whether it exited with success.
pub fn interpret_ping_output(stdout: &str, success: bool) -> (r: PingReply)
    ensures
        success ==> r == parse_rtt_spec(stdout@),
        !success && failure_is_timeout(stdout@) ==> r == PingReply::Timeout,
        !success && !failure_is_timeout(stdout@) ==> (r matches PingReply::Error(m) && m@
            == failure_message(stdout@)),
        !success && (contains(stdout@, "timed out"@) || contains(stdout@, "100% packet loss"@)
            || contains(stdout@, "100% loss"@)) ==> r == PingReply::Timeout,
        !success ==> !(r is Reply),
{
    if success {
        return parse_rtt(stdout);
    }
    let text = chars_of(stdout);
    if contains_chars(&text, &chars_of("timed out")) || contains_chars(
        &text,
        &chars_of("100% packet loss"),
    ) || contains_chars(&text, &chars_of("100% loss")) {
        return PingReply::Timeout;
    }
    let mut m = chars_of("ping failed: ");
    let ls = split_lines(&text);
    if ls.len() > 0 {
        assert(views(ls@).last() == ls@[ls@.len() - 1]@);
        extend_chars(&mut m, &ls[ls.len() - 1]);
    } else {
        extend_chars(&mut m, &chars_of("unknown error"));
    }
    PingReply::Error(string_of(&m))
}

/// The reply time of a run is that of its first line that reports one:
/// lines after it never change it, and lines before it that report none
/// never hide it.
pub proof fn law_first_reply_time_wins(a: Seq<Seq<char>>, b: Seq<Seq<char>>)
    ensures
        first_rtt(a + b) == if first_rtt(a) is Some {
            first_rtt(a)
        } else {
            first_rtt(b)
        },
    decreases a.len(),
{
    if a.len() > 0 {
        assert((a + b)[0] == a[0]);
        assert((a + b).drop_first() =~= a.drop_first() + b);
        law_first_reply_time_wins(a.drop_first(), b);
    } else {
        assert(a + b =~= b);
    }
}

/// A failed run is a timeout exactly when its output says that a request
/// timed out or that every packet was lost (`100% packet loss` on Linux and
/// macOS, `100% loss` on Windows); otherwise it is an error, never a reply.
/// Whatever a successful run without a reply time reads as a lost request,
/// a failed run reads as a timeout too.
pub proof fn law_failed_run_outcome(s: Seq<char>)
    ensures
        failure_is_timeout(s) <==> (contains(s, "timed out"@) || contains(s, "100% packet loss"@)
            || contains(s, "100% loss"@)),
        contains(s, "Request timed out"@) ==> failure_is_timeout(s),
        contains(s, "100% packet loss"@) ==> failure_is_timeout(s),
        reports_timeout(s) ==> failure_is_timeout(s),
        reports_timeout(s) <==> (contains(s, "Request timed out"@) || contains(
            s,
            "100% packet loss"@,
        )),
{
    if contains(s, "Request timed out"@) {
        reveal_strlit("Request timed out");
        reveal_strlit("timed out");
        assert("Request timed out"@.subrange(8, 17) =~= "timed out"@);
        lemma_contains_part(s, "Request timed out"@, 8, "timed out"@);
    }
}

/// What `parse_rtt` gives for an output.
pub open spec fn parse_rtt_spec(s: Seq<char>) -> PingReply {
    match first_rtt(lines(s)) {
        Some(t) => PingReply::Reply { rtt_us: t },
        None => if reports_timeout(s) {
            PingReply::Timeout
        } else {
            PingReply::Reply { rtt_us: 0 }
        },
    }
}

} // verus!
