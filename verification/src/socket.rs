//! The control protocol: the line grammar that turns client text into
//! commands, the acknowledgement and reply lines, and the decision of
//! where the control socket lives.  Binding, accepting and reading the
//! socket happen outside.

use vstd::prelude::*;
use vstd::string::*;

use crate::types::ControlCommand;

verus! {

/// ASCII whitespace, as the line grammar strips it.
pub open spec fn is_ws(c: char) -> bool {
    c == ' ' || c == '\t' || c == '\r' || c == '\n'
}

/// The sequence without its leading whitespace.
pub open spec fn trim_front(s: Seq<char>) -> Seq<char>
    decreases s.len(),
{
    if s.len() > 0 && is_ws(s[0]) {
        trim_front(s.drop_first())
    } else {
        s
    }
}

/// The sequence without its trailing whitespace.
pub open spec fn trim_back(s: Seq<char>) -> Seq<char>
    decreases s.len(),
{
    if s.len() > 0 && is_ws(s.last()) {
        trim_back(s.drop_last())
    } else {
        s
    }
}

/// The sequence without leading and trailing whitespace.
pub open spec fn trimmed(s: Seq<char>) -> Seq<char> {
    trim_back(trim_front(s))
}

/// Dropping a whitespace prefix is what `trim_front` does.
proof fn lemma_trim_front(s: Seq<char>, a: int)
    requires
        0 <= a <= s.len(),
        forall|j: int| 0 <= j < a ==> is_ws(s[j]),
        a < s.len() ==> !is_ws(s[a]),
    ensures
        trim_front(s) == s.subrange(a, s.len() as int),
    decreases a,
{
    if a == 0 {
        assert(s.subrange(0, s.len() as int) =~= s);
    } else {
        assert(is_ws(s[0]));
        let t = s.drop_first();
        assert(trim_front(s) == trim_front(t));
        assert(t =~= s.subrange(1, s.len() as int));
        lemma_trim_front(t, a - 1);
        assert(t.subrange(a - 1, t.len() as int) =~= s.subrange(a, s.len() as int));
    }
}

/// Dropping a whitespace suffix is what `trim_back` does.
proof fn lemma_trim_back(s: Seq<char>, b: int)
    requires
        0 <= b <= s.len(),
        forall|j: int| b <= j < s.len() ==> is_ws(s[j]),
        b > 0 ==> !is_ws(s[b - 1]),
    ensures
        trim_back(s) == s.subrange(0, b),
    decreases s.len() - b,
{
    if b == s.len() {
        assert(s.subrange(0, s.len() as int) =~= s);
    } else {
        assert(is_ws(s.last()));
        let t = s.drop_last();
        assert(trim_back(s) == trim_back(t));
        assert(t =~= s.subrange(0, s.len() - 1));
        lemma_trim_back(t, b);
        assert(t.subrange(0, b) =~= s.subrange(0, b));
    }
}

/// What a line of client text means: its trimmed content decides the
/// command, and anything unrecognized is no command.
pub open spec fn parse_command_spec(s: Seq<char>) -> Option<ControlCommand> {
    let t = trimmed(s);
    if t == "reload"@ {
        Some(ControlCommand::Reload)
    } else if t == "status"@ {
        Some(ControlCommand::Status)
    } else if t == "ping"@ {
        Some(ControlCommand::Ping)
    } else if t == "shutdown"@ {
        Some(ControlCommand::Shutdown)
    } else {
        None
    }
}

/// Whether the characters of `s` in `[a, b)` spell exactly `lit`.
fn region_eq(s: &str, a: usize, b: usize, lit: &str) -> (r: bool)
    requires
        a <= b <= s@.len(),
    ensures
        r == (s@.subrange(a as int, b as int) == lit@),
{
    let ll = lit.unicode_len();
    if b - a != ll {
        proof {
            assert(s@.subrange(a as int, b as int).len() == b - a);
            if s@.subrange(a as int, b as int) == lit@ {
                assert(s@.subrange(a as int, b as int).len() == lit@.len());
            }
        }
        return false;
    }
    let mut k: usize = 0;
    while k < ll
        invariant
            a <= b <= s@.len(),
            ll == lit@.len(),
            b - a == ll,
            k <= ll,
            forall|j: int| 0 <= j < k ==> s@.subrange(a as int, b as int)[j] == lit@[j],
        decreases ll - k,
    {
        if s.get_char(a + k) != lit.get_char(k) {
            proof {
                assert(s@.subrange(a as int, b as int)[k as int] == s@[a + k as int]);
            }
            return false;
        }
        proof {
            assert(s@.subrange(a as int, b as int)[k as int] == s@[a + k as int]);
        }
        k += 1;
    }
    proof {
        assert(s@.subrange(a as int, b as int) =~= lit@);
    }
    true
}

/// Parses one line of the control protocol.
pub fn parse_command(line: &str) -> (r: Option<ControlCommand>)
    ensures
        r == parse_command_spec(line@),
{
    let n = line.unicode_len();
    let mut a: usize = 0;
    loop
        invariant_except_break
            n == line@.len(),
            a <= n,
            forall|j: int| 0 <= j < a ==> is_ws(line@[j]),
        ensures
            n == line@.len(),
            a <= n,
            forall|j: int| 0 <= j < a ==> is_ws(line@[j]),
            a < n ==> !is_ws(line@[a as int]),
        decreases n - a,
    {
        if a >= n {
            break;
        }
        let c = line.get_char(a);
        if !(c == ' ' || c == '\t' || c == '\r' || c == '\n') {
            break;
        }
        a += 1;
    }
    let mut b: usize = n;
    loop
        invariant_except_break
            n == line@.len(),
            a <= b <= n,
            forall|j: int| b <= j < n ==> is_ws(line@[j]),
        ensures
            n == line@.len(),
            a <= b <= n,
            forall|j: int| b <= j < n ==> is_ws(line@[j]),
            b > a ==> !is_ws(line@[b - 1]),
        decreases b,
    {
        if b <= a {
            break;
        }
        let c = line.get_char(b - 1);
        if !(c == ' ' || c == '\t' || c == '\r' || c == '\n') {
            break;
        }
        b -= 1;
    }
    proof {
        lemma_trim_front(line@, a as int);
        let rest = line@.subrange(a as int, n as int);
        if b as int > a as int {
            assert(!is_ws(line@[b - 1]));
        }
        assert forall|j: int| b - a <= j < rest.len() implies is_ws(rest[j]) by {
            assert(rest[j] == line@[a + j]);
        }
        if b > a {
            assert(rest[b - a - 1] == line@[b - 1]);
        }
        lemma_trim_back(rest, b as int - a as int);
        assert(rest.subrange(0, b as int - a as int) =~= line@.subrange(a as int, b as int));
        assert(trimmed(line@) == line@.subrange(a as int, b as int));
    }
    if region_eq(line, a, b, "reload") {
        Some(ControlCommand::Reload)
    } else if region_eq(line, a, b, "status") {
        Some(ControlCommand::Status)
    } else if region_eq(line, a, b, "ping") {
        Some(ControlCommand::Ping)
    } else if region_eq(line, a, b, "shutdown") {
        Some(ControlCommand::Shutdown)
    } else {
        None
    }
}

/// The immediate acknowledgement a command earns on receipt; commands
/// that await a computed reply have none.
pub fn command_ack(cmd: &ControlCommand) -> (r: Option<String>)
    ensures
        match *cmd {
            ControlCommand::Reload => r matches Some(m) && m@ == "OK: Reload command sent\n"@,
            ControlCommand::Shutdown => r matches Some(m) && m@ == "OK: Shutdown command sent\n"@,
            ControlCommand::Status => r is None,
            ControlCommand::Ping => r is None,
        },
{
    match cmd {
        ControlCommand::Reload => Some(String::from_str("OK: Reload command sent\n")),
        ControlCommand::Shutdown => Some(String::from_str("OK: Shutdown command sent\n")),
        ControlCommand::Status => None,
        ControlCommand::Ping => None,
    }
}

/// The response to a line that is no command.
pub fn unknown_response() -> (r: String)
    ensures
        r@ == "ERROR: Unknown command\n"@,
{
    String::from_str("ERROR: Unknown command\n")
}

/// A computed reply, terminated by a newline for the wire.
pub fn reply_line(payload: &str) -> (r: String)
    ensures
        r@ == payload@ + "\n"@,
{
    let mut s = payload.to_owned();
    s.append("\n");
    s
}

/// Decides where the control socket lives.  The caller reports whether
/// the system runtime directory could be created, and the per-user
/// runtime directory if one is available; the order is: explicit
/// configuration, the system runtime directory, the per-user runtime
/// directory, then the temporary directory.
pub fn choose_socket_path(
    config_path: &Option<String>,
    run_dir_ok: bool,
    runtime_dir: &Option<String>,
) -> (r: String)
    ensures
        match *config_path {
            Some(ref p) => r@ == p@,
            None => {
                if run_dir_ok {
                    r@ == "/run/rust-network-manager/rust-network-manager.sock"@
                } else {
                    match *runtime_dir {
                        Some(ref d) => r@ == d@ + "/rust-network-manager.sock"@,
                        None => r@ == "/tmp/rust-network-manager.sock"@,
                    }
                }
            },
        },
{
    match config_path {
        Some(p) => p.clone(),
        None => {
            if run_dir_ok {
                String::from_str("/run/rust-network-manager/rust-network-manager.sock")
            } else {
                match runtime_dir {
                    Some(d) => {
                        let mut s = d.clone();
                        s.append("/rust-network-manager.sock");
                        s
                    },
                    None => String::from_str("/tmp/rust-network-manager.sock"),
                }
            }
        },
    }
}

} // verus!
