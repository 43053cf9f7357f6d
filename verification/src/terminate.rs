//! The terminator. A target port is resolved afresh to its owning process —
//! never reusing an enumeration snapshot, since the binding may have changed
//! in between — the process is looked up in a fresh process table, and a
//! termination signal is issued. Every outcome is reported as a flag and a
//! message that embeds the port number; over a batch, each port's outcome is
//! independent of the others'.

use vstd::prelude::*;

use crate::text::{dec_digits, dec_string};

verus! {

/// Result of killing a single port.
#[derive(Clone, Debug)]
pub struct KillResult {
    pub port: u16,
    pub success: bool,
    pub message: String,
}

/// The message reporting a successful termination.
pub open spec fn success_message(port: u16) -> Seq<char> {
    "Port "@ + dec_digits(port as nat) + " terminated successfully!"@
}

/// The message when no owning process could be resolved for the port;
/// `err` is the resolution failure's own text.
pub open spec fn resolve_failure_message(port: u16, err: Seq<char>) -> Seq<char> {
    "Port "@ + dec_digits(port as nat) + ": "@ + err
}

/// The message when the resolved process had already left the process table.
pub open spec fn gone_message(port: u16, pid: u32) -> Seq<char> {
    "Port "@ + dec_digits(port as nat) + ": process "@ + dec_digits(pid as nat) + " not found"@
}

/// The message when the OS declined to deliver the termination signal.
pub open spec fn rejected_message(port: u16) -> Seq<char> {
    "Port "@ + dec_digits(port as nat)
        + ": failed to kill process (try running with elevated permissions)"@
}

/// Every termination attempt ends in one of four ways: success, with its
/// fixed message, or one of the three failures, each with its message; the
/// flag is the message's shape.
pub open spec fn kill_outcome(port: u16, ok: bool, msg: Seq<char>) -> bool {
    if ok {
        msg == success_message(port)
    } else {
        ||| exists|err: Seq<char>| msg == resolve_failure_message(port, err)
        ||| exists|pid: u32| msg == gone_message(port, pid)
        ||| msg == rejected_message(port)
    }
}

/// Every outcome message, success or failure, opens with `"Port "` and the
/// targeted port's own numeral, so a reader can always tell which port an
/// outcome belongs to.
pub proof fn lemma_outcome_names_port(port: u16, ok: bool, msg: Seq<char>)
    requires
        kill_outcome(port, ok, msg),
    ensures
        ("Port "@ + dec_digits(port as nat)).is_prefix_of(msg),
{
    let pre = "Port "@ + dec_digits(port as nat);
    if ok {
        assert(pre =~= msg.subrange(0, pre.len() as int));
    } else if exists|err: Seq<char>| msg == resolve_failure_message(port, err) {
        let err = choose|err: Seq<char>| msg == resolve_failure_message(port, err);
        assert(pre =~= msg.subrange(0, pre.len() as int));
    } else if exists|pid: u32| msg == gone_message(port, pid) {
        let pid = choose|pid: u32| msg == gone_message(port, pid);
        assert(pre =~= msg.subrange(0, pre.len() as int));
    } else {
        assert(pre =~= msg.subrange(0, pre.len() as int));
    }
}

/// The success message is unmistakable: no failure message — whatever the
/// resolution error's text or the vanished pid — ever reads like it, since
/// after the port's numeral a failure continues with `':'` and a success
/// with `' '`.
pub proof fn lemma_success_message_distinct(port: u16)
    ensures
        forall|err: Seq<char>| resolve_failure_message(port, err) != success_message(port),
        forall|pid: u32| gone_message(port, pid) != success_message(port),
        rejected_message(port) != success_message(port),
{
    let pre = "Port "@ + dec_digits(port as nat);
    let i = pre.len() as int;
    reveal_strlit(" terminated successfully!");
    reveal_strlit(": ");
    reveal_strlit(": process ");
    reveal_strlit(": failed to kill process (try running with elevated permissions)");
    assert(success_message(port)[i] == ' ');
    assert forall|err: Seq<char>| resolve_failure_message(port, err) != success_message(
        port,
    ) by {
        assert(resolve_failure_message(port, err)[i] == ':');
    }
    assert forall|pid: u32| gone_message(port, pid) != success_message(port) by {
        assert(gone_message(port, pid)[i] == ':');
    }
    assert(rejected_message(port)[i] == ':');
}

fn port_prefix(port: u16) -> (r: String)
    ensures
        r@ == "Port "@ + dec_digits(port as nat),
{
    let mut r = "Port ".to_owned();
    let num = dec_string(port as u64);
    r.append(num.as_str());
    r
}

#[verifier::external_type_specification]
#[verifier::external_body]
pub struct ExSystem(sysinfo::System);

#[verifier::external_type_specification]
#[verifier::external_body]
pub struct ExProcess(sysinfo::Process);

/// Relies on listeners::get_process_by_port, restricted to TCP: the pid of
/// the process listening on `port`, or the lookup's failure as its text.
#[verifier::external_body]
fn resolve_tcp_pid(port: u16) -> Result<u32, String> {
    match listeners::get_process_by_port(port, listeners::Protocol::TCP) {
        Ok(p) => Ok(p.pid),
        Err(e) => Err(e.to_string()),
    }
}

/// Relies on sysinfo::System::new_all: a fresh, fully loaded process table.
#[verifier::external_body]
fn process_table() -> sysinfo::System {
    sysinfo::System::new_all()
}

/// Relies on sysinfo::System::refresh_all: the table is brought up to date.
#[verifier::external_body]
fn refresh_table(sys: &mut sysinfo::System) {
    sys.refresh_all();
}

/// Relies on sysinfo::System::process: the table's record of `pid`, if the
/// process is (still) present.
#[verifier::external_body]
fn find_process(sys: &sysinfo::System, pid: u32) -> Option<&sysinfo::Process> {
    sys.process(sysinfo::Pid::from_u32(pid))
}

/// Relies on sysinfo::Process::kill: whether the termination signal was sent.
#[verifier::external_body]
fn kill_process(p: &sysinfo::Process) -> bool {
    p.kill()
}

/// Kill the process listening on the given port. Success means the OS
/// accepted the termination signal, not that the process was seen to exit.
/// Whatever the OS answers, the result is one of the four outcomes of
/// `kill_outcome` for this very port, and the flag is true exactly on the
/// success message.
pub fn kill_port(port: u16) -> (r: (bool, String))
    ensures
        kill_outcome(port, r.0, r.1@),
        r.0 <==> r.1@ == success_message(port),
{
    proof {
        lemma_success_message_distinct(port);
    }
    let pid = match resolve_tcp_pid(port) {
        Err(e) => {
            let mut msg = port_prefix(port);
            msg.append(": ");
            msg.append(e.as_str());
            proof {
                assert(msg@ =~= resolve_failure_message(port, e@));
            }
            return (false, msg);
        },
        Ok(pid) => pid,
    };
    let mut sys = process_table();
    refresh_table(&mut sys);
    match find_process(&sys, pid) {
        None => {
            let mut msg = port_prefix(port);
            msg.append(": process ");
            let num = dec_string(pid as u64);
            msg.append(num.as_str());
            msg.append(" not found");
            proof {
                assert(msg@ =~= gone_message(port, pid));
            }
            (false, msg)
        },
        Some(p) => {
            if kill_process(p) {
                let mut msg = port_prefix(port);
                msg.append(" terminated successfully!");
                proof {
                    assert(msg@ =~= success_message(port));
                }
                (true, msg)
            } else {
                let mut msg = port_prefix(port);
                msg.append(": failed to kill process (try running with elevated permissions)");
                proof {
                    assert(msg@ =~= rejected_message(port));
                }
                (false, msg)
            }
        },
    }
}

/// Kill the process on every port of the batch, one after another, each
/// outcome independent of the others: one result per port, in order, each
/// carrying its own port and an outcome of `kill_outcome` for it.
pub fn kill_ports(ports: &[u16]) -> (rs: Vec<KillResult>)
    ensures
        rs@.len() == ports@.len(),
        forall|i: int|
            0 <= i < rs@.len() ==> (#[trigger] rs@[i]).port == ports@[i] && kill_outcome(
                ports@[i],
                rs@[i].success,
                rs@[i].message@,
            ) && (rs@[i].success <==> rs@[i].message@ == success_message(ports@[i])),
{
    let mut rs: Vec<KillResult> = Vec::new();
    let mut i: usize = 0;
    while i < ports.len()
        invariant
            i <= ports@.len(),
            rs@.len() == i,
            forall|k: int|
                0 <= k < rs@.len() ==> (#[trigger] rs@[k]).port == ports@[k] && kill_outcome(
                    ports@[k],
                    rs@[k].success,
                    rs@[k].message@,
                ) && (rs@[k].success <==> rs@[k].message@ == success_message(ports@[k])),
        decreases ports@.len() - i,
    {
        let port = ports[i];
        let (success, message) = kill_port(port);
        rs.push(KillResult { port, success, message });
        i = i + 1;
    }
    rs
}

} // verus!
