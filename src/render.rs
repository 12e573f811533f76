//! How the client shows a reply on a terminal: a colored header per node, its
//! exit status, and each output stream indented line by line.
use crate::client::split_on;
use crate::types::{opt_view, CmdReturn, ResponseError, SshReturn};
use vstd::prelude::*;
use vstd::string::StringExecFns;

verus! {

/// The characters that Unicode's `White_Space` property names.
pub open spec fn white_space(c: char) -> bool {
    ('\u{9}' <= c && c <= '\u{d}') || c == ' ' || c == '\u{85}' || c == '\u{a0}' || c == '\u{1680}'
        || ('\u{2000}' <= c && c <= '\u{200a}') || c == '\u{2028}' || c == '\u{2029}' || c
        == '\u{202f}' || c == '\u{205f}' || c == '\u{3000}'
}

pub open spec fn trim_start(s: Seq<char>) -> Seq<char>
    decreases s.len(),
{
    if s.len() > 0 && white_space(s[0]) {
        trim_start(s.drop_first())
    } else {
        s
    }
}

pub open spec fn trim_end(s: Seq<char>) -> Seq<char>
    decreases s.len(),
{
    if s.len() > 0 && white_space(s.last()) {
        trim_end(s.drop_last())
    } else {
        s
    }
}

/// `s` without the white space at either end.
pub open spec fn trimmed(s: Seq<char>) -> Seq<char> {
    trim_end(trim_start(s))
}

/// Relies on `str::trim`: white space, as Unicode's `White_Space` property
/// defines it, taken off both ends.
#[verifier::external_body]
fn trim_text(s: &str) -> (r: &str)
    ensures
        r@ == trimmed(s@),
{
    s.trim()
}

/// Relies on `str::strip_suffix` with a `char`: the text before a final `c`,
/// where the text ends with one.
#[verifier::external_body]
fn strip_final(s: &str, c: char) -> (r: Option<&str>)
    ensures
        match r {
            Some(t) => s@.len() > 0 && s@.last() == c && t@ == s@.drop_last(),
            None => !(s@.len() > 0 && s@.last() == c),
        },
{
    s.strip_suffix(c)
}

/// The decimal form of an integer, with a leading `-` where it is negative.
pub open spec fn decimal(n: int) -> Seq<char>
    decreases (if n < 0 {
        -n + 1
    } else {
        n
    }),
{
    if n < 0 {
        seq!['-'] + decimal(-n)
    } else if n < 10 {
        seq![(n + '0' as int) as char]
    } else {
        decimal(n / 10).push((n % 10 + '0' as int) as char)
    }
}

/// Relies on `<i32 as ToString>::to_string`, that is on `Display` for `i32`:
/// the decimal form, a `-` before a negative value.
#[verifier::external_body]
fn i32_text(n: i32) -> (r: String)
    ensures
        r@ == decimal(n as int),
{
    n.to_string()
}

/// A line without the carriage return that ends it, where one does.
pub open spec fn without_cr(l: Seq<char>) -> Seq<char> {
    if l.len() > 0 && l.last() == '\r' {
        l.drop_last()
    } else {
        l
    }
}

/// The lines of a text that begins and ends with no white space, as
/// `str::lines` gives them: split at each line feed, a carriage return before
/// the line feed dropped; an empty text has no lines.
pub open spec fn text_lines(t: Seq<char>) -> Seq<Seq<char>> {
    if t.len() == 0 {
        Seq::empty()
    } else {
        split_on(t, '\n').map_values(|l: Seq<char>| without_cr(l))
    }
}

/// Each line indented by four spaces and ended by a line feed.
pub open spec fn line_block(lines: Seq<Seq<char>>) -> Seq<char>
    decreases lines.len(),
{
    if lines.len() == 0 {
        Seq::empty()
    } else {
        line_block(lines.drop_last()) + "    "@ + lines.last() + "\n"@
    }
}

/// An output stream under its title; nothing where the stream was absent.
pub open spec fn stream_block(title: Seq<char>, text: Option<Seq<char>>) -> Seq<char> {
    match text {
        Some(t) => "\n  "@ + title + ":\n"@ + line_block(text_lines(trimmed(t))),
        None => Seq::empty(),
    }
}

pub open spec fn red() -> Seq<char> {
    "\x1b[0;31m"@
}

pub open spec fn green() -> Seq<char> {
    "\x1b[0;32m"@
}

pub open spec fn no_color() -> Seq<char> {
    "\x1b[0m"@
}

/// One node's entry as the client shows it: green where the command exited
/// with status 0, red where it failed or could not run.
pub open spec fn rendered(r: CmdReturn) -> Seq<char> {
    match r.data {
        SshReturn::SshSuccess(s) => (if s.exit_status == 0 {
            green() + r.node_name@ + " | SUCCESS:"@
        } else {
            red() + r.node_name@ + " | FAILED:"@
        }) + "\n  exit_status: "@ + decimal(s.exit_status as int) + stream_block(
            "stdout"@,
            opt_view(s.stdout),
        ) + stream_block("stderr"@, opt_view(s.stderr)) + no_color(),
        SshReturn::SshFailure(m) => red() + r.node_name@ + " | TRANSPORT FAILURE:\n"@ + "  "@ + m@
            + "\n"@ + no_color(),
    }
}

fn append_stream(out: &mut String, title: &str, text: &Option<String>)
    ensures
        final(out)@ == old(out)@ + stream_block(title@, opt_view(*text)),
{
    match text {
        None => {
            assert(old(out)@ + Seq::<char>::empty() =~= old(out)@);
        },
        Some(t) => {
            let ghost start = out@;
            out.append("\n  ");
            out.append(title);
            out.append(":\n");
            let ghost head = out@;
            let body = trim_text(t.as_str());
            if body.is_empty() {
                proof {
                    assert(text_lines(body@) =~= Seq::<Seq<char>>::empty());
                    assert(head + Seq::<char>::empty() =~= head);
                }
            } else {
                let lines = split_at_lines(body);
                let ghost ls = text_lines(body@);
                let mut i: usize = 0;
                while i < lines.len()
                    invariant
                        i <= lines@.len(),
                        lines@.len() == ls.len(),
                        forall|k: int| 0 <= k < ls.len() ==> without_cr(#[trigger] lines@[k]@) == ls[k],
                        out@ == head + line_block(ls.subrange(0, i as int)),
                    decreases lines@.len() - i,
                {
                    assert(ls.subrange(0, i + 1).drop_last() =~= ls.subrange(0, i as int));
                    out.append("    ");
                    match strip_final(lines[i].as_str(), '\r') {
                        Some(l) => out.append(l),
                        None => out.append(lines[i].as_str()),
                    }
                    out.append("\n");
                    i = i + 1;
                }
                assert(ls.subrange(0, i as int) =~= ls);
            }
            assert(out@ =~= start + stream_block(title@, opt_view(*text)));
        },
    }
}

fn split_at_lines(t: &str) -> (r: Vec<String>)
    requires
        t@.len() > 0,
    ensures
        r@.len() == text_lines(t@).len(),
        forall|k: int| 0 <= k < r@.len() ==> without_cr(#[trigger] r@[k]@) == text_lines(t@)[k],
{
    let r = crate::client::split_text(t, '\n');
    proof {
        assert forall|k: int| 0 <= k < r@.len() implies without_cr(#[trigger] r@[k]@) == text_lines(
            t@,
        )[k] by {
            assert(crate::names::names_of(r@)[k] == r@[k]@);
        }
    }
    r
}

impl CmdReturn {
    /// The entry as the client prints it.
    pub fn render(&self) -> (r: String)
        ensures
            r@ == rendered(*self),
    {
        match &self.data {
            SshReturn::SshSuccess(s) => {
                let mut out = if s.exit_status == 0 {
                    "\x1b[0;32m".to_owned()
                } else {
                    "\x1b[0;31m".to_owned()
                };
                out.append(self.node_name.as_str());
                if s.exit_status == 0 {
                    out.append(" | SUCCESS:");
                } else {
                    out.append(" | FAILED:");
                }
                out.append("\n  exit_status: ");
                out.append(i32_text(s.exit_status).as_str());
                append_stream(&mut out, "stdout", &s.stdout);
                append_stream(&mut out, "stderr", &s.stderr);
                out.append("\x1b[0m");
                out
            },
            SshReturn::SshFailure(m) => {
                let mut out = "\x1b[0;31m".to_owned();
                out.append(self.node_name.as_str());
                out.append(" | TRANSPORT FAILURE:\n");
                out.append("  ");
                out.append(m.as_str());
                out.append("\n");
                out.append("\x1b[0m");
                out
            },
        }
    }
}

impl ResponseError {
    /// The error as the client prints it, in red.
    pub fn render(&self) -> (r: String)
        ensures
            r@ == red() + self.spec_describe() + no_color(),
    {
        let mut out = "\x1b[0;31m".to_owned();
        out.append(self.describe().as_str());
        out.append("\x1b[0m");
        out
    }
}

} // verus!
