use vstd::prelude::*;
use crate::protocol::message::{Message, MessageView};

verus! {

/// The decimal digit character for `d < 10`.
pub open spec fn digit_char(d: nat) -> char {
    if d == 0 { '0' }
    else if d == 1 { '1' }
    else if d == 2 { '2' }
    else if d == 3 { '3' }
    else if d == 4 { '4' }
    else if d == 5 { '5' }
    else if d == 6 { '6' }
    else if d == 7 { '7' }
    else if d == 8 { '8' }
    else { '9' }
}

/// Decimal representation of `n`, without leading zeros.
pub open spec fn decimal(n: nat) -> Seq<char>
    decreases n,
{
    if n < 10 {
        seq![digit_char(n)]
    } else {
        decimal(n / 10).push(digit_char(n % 10))
    }
}

/// `true` or `false`.
pub open spec fn bool_text(b: bool) -> Seq<char> {
    if b { "true"@ } else { "false"@ }
}

/// The human-readable label of a message, as shown in message logs:
/// `RequestVote(t=3)`, `VoteResponse(t=3, granted=true)`,
/// `AppendEntries(t=3, n=1)`, `AppendEntriesResponse(t=3, ok=false)`.
pub open spec fn label_text(m: MessageView) -> Seq<char> {
    match m {
        MessageView::RequestVote(v) => "RequestVote(t="@ + decimal(v.term as nat) + ")"@,
        MessageView::RequestVoteResponse(v) => "VoteResponse(t="@ + decimal(v.term as nat)
            + ", granted="@ + bool_text(v.vote_granted) + ")"@,
        MessageView::AppendEntries(v) => "AppendEntries(t="@ + decimal(v.term as nat) + ", n="@
            + decimal(v.entries.len()) + ")"@,
        MessageView::AppendEntriesResponse(v) => "AppendEntriesResponse(t="@ + decimal(
            v.term as nat,
        ) + ", ok="@ + bool_text(v.success) + ")"@,
    }
}

fn digit_str(d: u64) -> (s: &'static str)
    requires
        d < 10,
    ensures
        s@ == seq![digit_char(d as nat)],
{
    proof {
        reveal_strlit("0");
        reveal_strlit("1");
        reveal_strlit("2");
        reveal_strlit("3");
        reveal_strlit("4");
        reveal_strlit("5");
        reveal_strlit("6");
        reveal_strlit("7");
        reveal_strlit("8");
        reveal_strlit("9");
    }
    if d == 0 { "0" }
    else if d == 1 { "1" }
    else if d == 2 { "2" }
    else if d == 3 { "3" }
    else if d == 4 { "4" }
    else if d == 5 { "5" }
    else if d == 6 { "6" }
    else if d == 7 { "7" }
    else if d == 8 { "8" }
    else { "9" }
}

/// Append the decimal representation of `n` to `s`.
pub fn append_decimal(s: &mut String, n: u64)
    ensures
        final(s)@ == old(s)@ + decimal(n as nat),
    decreases n,
{
    if n < 10 {
        s.append(digit_str(n));
    } else {
        append_decimal(s, n / 10);
        s.append(digit_str(n % 10));
        proof {
            assert(old(s)@ + decimal(n as nat) =~= old(s)@ + decimal((n / 10) as nat) + seq![
                digit_char((n % 10) as nat),
            ]);
        }
    }
}

fn append_bool(s: &mut String, b: bool)
    ensures
        final(s)@ == old(s)@ + bool_text(b),
{
    proof {
        reveal_strlit("true");
        reveal_strlit("false");
    }
    if b {
        s.append("true");
    } else {
        s.append("false");
    }
}

/// Human-readable label of a message, e.g. `AppendEntries(t=3, n=1)`.
pub fn msg_label(msg: &Message) -> (label: String)
    ensures
        label@ == label_text(msg@),
{
    match msg {
        Message::RequestVote(m) => {
            let mut s = String::from_str("RequestVote(t=");
            append_decimal(&mut s, m.term);
            s.append(")");
            proof {
                assert(s@ =~= label_text(msg@));
            }
            s
        },
        Message::RequestVoteResponse(m) => {
            let mut s = String::from_str("VoteResponse(t=");
            append_decimal(&mut s, m.term);
            s.append(", granted=");
            append_bool(&mut s, m.vote_granted);
            s.append(")");
            proof {
                assert(s@ =~= label_text(msg@));
            }
            s
        },
        Message::AppendEntries(m) => {
            let mut s = String::from_str("AppendEntries(t=");
            append_decimal(&mut s, m.term);
            s.append(", n=");
            append_decimal(&mut s, m.entries.len() as u64);
            s.append(")");
            proof {
                assert(s@ =~= label_text(msg@));
            }
            s
        },
        Message::AppendEntriesResponse(m) => {
            let mut s = String::from_str("AppendEntriesResponse(t=");
            append_decimal(&mut s, m.term);
            s.append(", ok=");
            append_bool(&mut s, m.success);
            s.append(")");
            proof {
                assert(s@ =~= label_text(msg@));
            }
            s
        },
    }
}

} // verus!
