//! One probe of one host: the command to run, directly or through a relay,
//! and the outcome that its run amounts to.

use crate::reading::{parse_rtt, rtt_of_text};
use crate::state::FAILURE;
use vstd::prelude::*;
use vstd::string::StringExecFns;
use vstd::utf8::{decode_utf8, valid_utf8};

verus! {

/// The probe of one host, run on this machine or, where `via_ssh` names a
/// relay (`user@host`), on the relay.
#[derive(Debug)]
pub struct Pinger {
    pub target_ip: String,
    pub via_ssh: Option<String>,
}

/// What a [`Pinger`] holds, as mathematical values.
pub struct PingerView {
    pub target_ip: Seq<char>,
    pub via_ssh: Option<Seq<char>>,
}

impl View for Pinger {
    type V = PingerView;

    open spec fn view(&self) -> PingerView {
        PingerView {
            target_ip: self.target_ip@,
            via_ssh: match self.via_ssh {
                Some(relay) => Some(relay@),
                None => None,
            },
        }
    }
}

/// A program and its arguments.
#[derive(Debug)]
pub struct ProbeCommand {
    pub program: String,
    pub args: Vec<String>,
}

/// What a [`ProbeCommand`] holds, as mathematical values.
pub struct ProbeCommandView {
    pub program: Seq<char>,
    pub args: Seq<Seq<char>>,
}

impl View for ProbeCommand {
    type V = ProbeCommandView;

    open spec fn view(&self) -> ProbeCommandView {
        ProbeCommandView { program: self.program@, args: self.args.deep_view() }
    }
}

/// How the run of a probe command ended.
#[derive(Debug)]
pub enum ProbeRun {
    /// The program could not be started.
    NotLaunched,
    /// The program ran and exited, with or without success, having written
    /// `stdout` to its standard output.
    Exited { success: bool, stdout: Vec<u8> },
}

/// An address with a colon in it is taken for an IPv6 address.
pub open spec fn is_ipv6_address(target: Seq<char>) -> bool {
    target.contains(':')
}

/// The arguments of a probe of `target`: one echo request, one second of
/// waiting at most, for IPv6 where the address asks for it.
pub open spec fn ping_args(target: Seq<char>) -> Seq<Seq<char>> {
    let family = if is_ipv6_address(target) {
        seq!["-6"@]
    } else {
        Seq::empty()
    };
    family + seq!["-c"@, "1"@, "-W"@, "1"@, target]
}

/// `line` followed by each of `words`, a space before each.
pub open spec fn with_words(line: Seq<char>, words: Seq<Seq<char>>) -> Seq<char>
    decreases words.len(),
{
    if words.len() == 0 {
        line
    } else {
        with_words(line, words.drop_last()) + seq![' '] + words.last()
    }
}

/// The command that probes for `pinger`: `ping` itself, or `ssh` to the relay,
/// told to ignore configuration files and to run the same `ping` there.
pub open spec fn probe_command(pinger: PingerView) -> ProbeCommandView {
    match pinger.via_ssh {
        None => ProbeCommandView { program: "ping"@, args: ping_args(pinger.target_ip) },
        Some(relay) => ProbeCommandView {
            program: "ssh"@,
            args: seq!["-F"@, "/dev/null"@, relay, with_words("ping"@, ping_args(pinger.target_ip))],
        },
    }
}

/// The outcome of a probe whose command ended as `run`: what its output
/// reports where it ran with success and wrote UTF-8, `FAILURE` otherwise.
pub open spec fn outcome_of_run(run: ProbeRun) -> i32 {
    match run {
        ProbeRun::NotLaunched => FAILURE,
        ProbeRun::Exited { success, stdout } => if success && valid_utf8(stdout@) {
            rtt_of_text(decode_utf8(stdout@))
        } else {
            FAILURE
        },
    }
}

/// `core::str::from_utf8`: the text that `bytes` encode, where they are valid
/// UTF-8, and nothing where they are not.
#[verifier::external_body]
fn utf8_text(bytes: &[u8]) -> (text: Option<&str>)
    ensures
        text is Some <==> valid_utf8(bytes@),
        text matches Some(s) ==> s@ == decode_utf8(bytes@),
{
    core::str::from_utf8(bytes).ok()
}

impl Pinger {
    /// A probe of `ip` from this machine.
    pub fn new_local(ip: &str) -> (pinger: Pinger)
        ensures
            pinger@ == (PingerView { target_ip: ip@, via_ssh: None }),
    {
        Pinger { target_ip: ip.to_owned(), via_ssh: None }
    }

    /// A probe of `target_ip` from the relay `ssh_host`.
    pub fn new_remote(ssh_host: &str, target_ip: &str) -> (pinger: Pinger)
        ensures
            pinger@ == (PingerView { target_ip: target_ip@, via_ssh: Some(ssh_host@) }),
    {
        Pinger { target_ip: target_ip.to_owned(), via_ssh: Some(ssh_host.to_owned()) }
    }

    /// A probe of `ip` from this machine.
    pub fn new(ip: &str) -> (pinger: Pinger)
        ensures
            pinger@ == (PingerView { target_ip: ip@, via_ssh: None }),
    {
        Pinger::new_local(ip)
    }

    /// Whether the target is taken for an IPv6 address.
    pub fn is_ipv6(&self) -> (v6: bool)
        ensures
            v6 == is_ipv6_address(self@.target_ip),
    {
        let mut found = false;
        for c in it: self.target_ip.as_str().chars()
            invariant
                it.seq() == self.target_ip@,
                found == it.seq().take(it.index() as int).contains(':'),
        {
            proof {
                let seen = it.seq().take(it.index() as int);
                let next = it.seq().take(it.index() + 1);
                assert(next =~= seen.push(c));
                if c == ':' {
                    assert(next[seen.len() as int] == ':');
                }
            }
            if c == ':' {
                found = true;
            }
        }
        assert(self.target_ip@.take(self.target_ip@.len() as int) =~= self.target_ip@);
        found
    }

    /// The command whose run probes the target once.
    pub fn command(&self) -> (command: ProbeCommand)
        ensures
            command@ == probe_command(self@),
    {
        let mut args: Vec<String> = Vec::new();
        if self.is_ipv6() {
            args.push("-6".to_owned());
        }
        args.push("-c".to_owned());
        args.push("1".to_owned());
        args.push("-W".to_owned());
        args.push("1".to_owned());
        args.push(self.target_ip.clone());
        assert(args.deep_view() =~= ping_args(self@.target_ip));
        match &self.via_ssh {
            None => ProbeCommand { program: "ping".to_owned(), args },
            Some(relay) => {
                let mut line = "ping".to_owned();
                let mut k: usize = 0;
                while k < args.len()
                    invariant
                        k <= args.len(),
                        line@ == with_words("ping"@, args.deep_view().take(k as int)),
                    decreases args.len() - k,
                {
                    proof {
                        let words = args.deep_view().take(k + 1);
                        assert(words.drop_last() =~= args.deep_view().take(k as int));
                        assert(words.last() == args[k as int]@);
                        reveal_strlit(" ");
                        assert(" "@ =~= seq![' ']);
                    }
                    line.append(" ");
                    line.append(args[k].as_str());
                    k += 1;
                }
                assert(args.deep_view().take(k as int) =~= args.deep_view());
                let mut outer: Vec<String> = Vec::new();
                outer.push("-F".to_owned());
                outer.push("/dev/null".to_owned());
                outer.push(relay.clone());
                outer.push(line);
                let command = ProbeCommand { program: "ssh".to_owned(), args: outer };
                assert(command@.args =~= probe_command(self@).args);
                command
            },
        }
    }
}

/// The outcome of a probe whose command ended as `run`.
pub fn outcome_of(run: &ProbeRun) -> (rtt: i32)
    ensures
        rtt == outcome_of_run(*run),
        rtt == FAILURE || rtt >= 0,
        run is NotLaunched ==> rtt == FAILURE,
        run matches ProbeRun::Exited { success: false, .. } ==> rtt == FAILURE,
{
    match run {
        ProbeRun::NotLaunched => FAILURE,
        ProbeRun::Exited { success, stdout } => {
            if !*success {
                return FAILURE;
            }
            match utf8_text(stdout.as_slice()) {
                Some(text) => parse_rtt(text),
                None => FAILURE,
            }
        },
    }
}

} // verus!
