//! The managed iptables rules: the plan of commands that rebuilds the
//! `TAILNAT_*` chains for a configuration, and the small machine that walks
//! the plan, deciding after each command's outcome what to run next.
//!
//! A temporary FORWARD drop is inserted before anything is flushed and is
//! removed as the very last step, so an update that stops half-way leaves the
//! gateway closed rather than permissive.
use vstd::prelude::*;

use crate::ipv4::{ipv4_text, ipv4_to_string};
use crate::model::{
    config_outcome, config_valid, protocol_name, Config, ConfigError, Forward, Protocol,
};
use crate::text::{decimal, owned, push_char, push_decimal, u16_text};

verus! {

/// The nat chain that holds one DNAT rule per enabled forward.
pub const PRE: &'static str = "TAILNAT_PRE";

/// The nat chain that masquerades forwarded connections towards the tailnet.
pub const POST: &'static str = "TAILNAT_POST";

/// The filter chain that accepts forwarded connections and drops the rest.
pub const FWD: &'static str = "TAILNAT_FWD";

/// The character views of a list of strings.
pub open spec fn words(v: Seq<String>) -> Seq<Seq<char>> {
    v.map_values(|s: String| s@)
}

/// One step of a firewall update, by the iptables argument lists it runs.
pub enum Op {
    /// Run the command; the update stops if it fails.
    Run(Vec<String>),
    /// Run the check; only when it fails, run the command.
    RunUnless(Vec<String>, Vec<String>),
    /// While the check succeeds, run the command.
    DeleteAll(Vec<String>, Vec<String>),
}

/// A step of a firewall update, as character sequences.
pub enum Step {
    Run(Seq<Seq<char>>),
    RunUnless(Seq<Seq<char>>, Seq<Seq<char>>),
    DeleteAll(Seq<Seq<char>>, Seq<Seq<char>>),
}

impl View for Op {
    type V = Step;

    open spec fn view(&self) -> Step {
        match self {
            Op::Run(a) => Step::Run(words(a@)),
            Op::RunUnless(c, a) => Step::RunUnless(words(c@), words(a@)),
            Op::DeleteAll(c, a) => Step::DeleteAll(words(c@), words(a@)),
        }
    }
}

/// The steps of a list of operations.
pub open spec fn steps(ops: Seq<Op>) -> Seq<Step> {
    ops.map_values(|o: Op| o@)
}

/// The full argument list of an iptables call on `table` (`-w 10 -t table ...`).
pub open spec fn ipt_words(table: Seq<char>, args: Seq<Seq<char>>) -> Seq<Seq<char>> {
    seq!["-w"@, "10"@, "-t"@, table] + args
}

/// Create `chain` in `table` unless it exists.
pub open spec fn ensure_chain_step(table: Seq<char>, chain: Seq<char>) -> Step {
    Step::RunUnless(ipt_words(table, seq!["-S"@, chain]), ipt_words(table, seq!["-N"@, chain]))
}

/// Delete every rule of `parent` in `table` that matches `spec`.
pub open spec fn remove_jumps_step(table: Seq<char>, parent: Seq<char>, spec: Seq<Seq<char>>) -> Step {
    Step::DeleteAll(
        ipt_words(table, seq!["-C"@, parent] + spec),
        ipt_words(table, seq!["-D"@, parent] + spec),
    )
}

/// The rule that drops traffic from the public interface to the tailnet.
pub open spec fn guard_words(c: Config) -> Seq<Seq<char>> {
    seq!["-i"@, c.public_interface@, "-o"@, c.tailscale_interface@, "-j"@, "DROP"@]
}

/// Insert the guard at the head of FORWARD unless it is there.
pub open spec fn guard_insert_step(c: Config) -> Step {
    Step::RunUnless(
        ipt_words("filter"@, seq!["-C"@, "FORWARD"@] + guard_words(c)),
        ipt_words("filter"@, seq!["-I"@, "FORWARD"@, "1"@] + guard_words(c)),
    )
}

/// Remove every copy of the guard from FORWARD.
pub open spec fn guard_remove_step(c: Config) -> Step {
    remove_jumps_step("filter"@, "FORWARD"@, guard_words(c))
}

/// `ip:port` of a forward's destination.
pub open spec fn destination_text(f: Forward) -> Seq<char> {
    ipv4_text(f.target_ip) + seq![':'] + decimal(f.target_port as nat)
}

/// The DNAT rule of a forward.
pub open spec fn dnat_words(f: Forward) -> Seq<Seq<char>> {
    seq![
        "-A"@,
        PRE@,
        "-p"@,
        protocol_name(f.protocol),
        "--dport"@,
        decimal(f.public_port as nat),
        "-j"@,
        "DNAT"@,
        "--to-destination"@,
        destination_text(f),
    ]
}

/// The rule that accepts DNAT-ed connections to a forward's target.
pub open spec fn accept_words(f: Forward) -> Seq<Seq<char>> {
    seq![
        "-I"@,
        FWD@,
        "1"@,
        "-m"@,
        "conntrack"@,
        "--ctstate"@,
        "DNAT"@,
        "-d"@,
        ipv4_text(f.target_ip),
        "-p"@,
        protocol_name(f.protocol),
        "--dport"@,
        decimal(f.target_port as nat),
        "-j"@,
        "ACCEPT"@,
    ]
}

/// The rule that masquerades DNAT-ed connections to a forward's target.
pub open spec fn masquerade_words(c: Config, f: Forward) -> Seq<Seq<char>> {
    seq![
        "-A"@,
        POST@,
        "-m"@,
        "conntrack"@,
        "--ctstate"@,
        "DNAT"@,
        "-d"@,
        ipv4_text(f.target_ip),
        "-o"@,
        c.tailscale_interface@,
        "-p"@,
        protocol_name(f.protocol),
        "--dport"@,
        decimal(f.target_port as nat),
        "-j"@,
        "MASQUERADE"@,
    ]
}

/// Which target a masquerade rule serves.
pub open spec fn masquerade_key(f: Forward) -> (crate::ipv4::Ipv4Addr, Protocol, u16) {
    (f.target_ip, f.protocol, f.target_port)
}

/// No enabled forward before `i` has the same target as forward `i`.
pub open spec fn first_of_target(c: Config, i: int) -> bool {
    forall|j: int|
        0 <= j < i ==> !((#[trigger] c.forwards@[j]).enabled && masquerade_key(c.forwards@[j])
            == masquerade_key(c.forwards@[i]))
}

/// The steps that install forward `i`: none for a paused forward; else its
/// DNAT rule, its accept rule, and a masquerade rule for the first forward
/// to each target.
pub open spec fn forward_steps(c: Config, i: int) -> Seq<Step> {
    let f = c.forwards@[i];
    if !f.enabled {
        seq![]
    } else {
        seq![Step::Run(ipt_words("nat"@, dnat_words(f))), Step::Run(ipt_words("filter"@, accept_words(f)))]
            + if first_of_target(c, i) {
            seq![Step::Run(ipt_words("nat"@, masquerade_words(c, f)))]
        } else {
            seq![]
        }
    }
}

/// The steps for the first `n` forwards.
pub open spec fn forwards_steps(c: Config, n: int) -> Seq<Step>
    decreases n,
{
    if n <= 0 {
        seq![]
    } else {
        forwards_steps(c, n - 1) + forward_steps(c, n - 1)
    }
}

/// What is run before the forwards: the chains exist, the guard is in place,
/// and the managed chains are emptied (the filter chain down to a final DROP).
pub open spec fn head_steps(c: Config) -> Seq<Step> {
    seq![
        ensure_chain_step("filter"@, FWD@),
        ensure_chain_step("nat"@, PRE@),
        ensure_chain_step("nat"@, POST@),
        guard_insert_step(c),
        Step::Run(ipt_words("filter"@, seq!["-F"@, FWD@])),
        Step::Run(ipt_words("filter"@, seq!["-A"@, FWD@, "-j"@, "DROP"@])),
        Step::Run(ipt_words("nat"@, seq!["-F"@, PRE@])),
        Step::Run(ipt_words("nat"@, seq!["-F"@, POST@])),
    ]
}

/// What is run after the forwards: each jump into a managed chain is made
/// unique, then the guard goes.
pub open spec fn tail_steps(c: Config) -> Seq<Step> {
    seq![
        remove_jumps_step("nat"@, "PREROUTING"@, seq!["-i"@, c.public_interface@, "-j"@, PRE@]),
        Step::Run(
            ipt_words(
                "nat"@,
                seq!["-I"@, "PREROUTING"@, "1"@, "-i"@, c.public_interface@, "-j"@, PRE@],
            ),
        ),
        remove_jumps_step("nat"@, "POSTROUTING"@, seq!["-j"@, POST@]),
        Step::Run(ipt_words("nat"@, seq!["-A"@, "POSTROUTING"@, "-j"@, POST@])),
        remove_jumps_step(
            "filter"@,
            "FORWARD"@,
            seq!["-i"@, c.public_interface@, "-o"@, c.tailscale_interface@, "-j"@, FWD@],
        ),
        Step::Run(
            ipt_words(
                "filter"@,
                seq![
                    "-I"@,
                    "FORWARD"@,
                    "1"@,
                    "-i"@,
                    c.public_interface@,
                    "-o"@,
                    c.tailscale_interface@,
                    "-j"@,
                    FWD@,
                ],
            ),
        ),
        guard_remove_step(c),
    ]
}

/// Every step of the update for configuration `c`, in order.
pub open spec fn plan_steps(c: Config) -> Seq<Step> {
    head_steps(c) + forwards_steps(c, c.forwards@.len() as int) + tail_steps(c)
}

/// Owned copies of a list of string slices.
fn strings(v: Vec<&str>) -> (r: Vec<String>)
    ensures
        words(r@) == v@.map_values(|s: &str| s@),
{
    let mut r: Vec<String> = Vec::new();
    let mut i: usize = 0;
    while i < v.len()
        invariant
            0 <= i <= v@.len(),
            r@.len() == i,
            words(r@) == v@.take(i as int).map_values(|s: &str| s@),
        decreases v.len() - i,
    {
        let ghost prev = r@;
        let x = owned(v[i]);
        r.push(x);
        proof {
            assert(v@.take(i + 1)[i as int] == v@[i as int]);
            assert forall|k: int| 0 <= k < i + 1 implies words(r@)[k] == v@.take(i + 1).map_values(
                |s: &str| s@,
            )[k] by {
                if k < i {
                    assert(words(prev)[k] == v@.take(i as int).map_values(|s: &str| s@)[k]);
                }
            }
            assert(words(r@) =~= v@.take(i + 1).map_values(|s: &str| s@));
        }
        i = i + 1;
    }
    assert(v@.take(v@.len() as int) =~= v@);
    r
}

/// `a` followed by copies of `b`.
fn concat(a: Vec<String>, b: &Vec<String>) -> (r: Vec<String>)
    ensures
        words(r@) == words(a@) + words(b@),
{
    let mut r = a;
    let ghost start = words(r@);
    assert(r@.len() == start.len());
    let mut i: usize = 0;
    while i < b.len()
        invariant
            0 <= i <= b@.len(),
            r@.len() == start.len() + i,
            words(r@) == start + words(b@.take(i as int)),
        decreases b.len() - i,
    {
        let ghost prev = r@;
        r.push(b[i].clone());
        proof {
            assert forall|k: int| 0 <= k < r@.len() implies words(r@)[k] == (start + words(
                b@.take(i + 1),
            ))[k] by {
                if k < prev.len() {
                    assert(words(prev)[k] == (start + words(b@.take(i as int)))[k]);
                }
            }
            assert(words(r@) =~= start + words(b@.take(i + 1)));
        }
        i = i + 1;
    }
    assert(b@.take(b@.len() as int) =~= b@);
    r
}

/// The argument list of an iptables call on `table` with `args`.
pub fn ipt(table: &str, args: &Vec<String>) -> (r: Vec<String>)
    ensures
        words(r@) == ipt_words(table@, words(args@)),
{
    let head = strings(vec!["-w", "10", "-t", table]);
    let r = concat(head, args);
    assert(words(r@) =~= ipt_words(table@, words(args@)));
    r
}

/// Create `chain` in `table` unless it exists.
pub fn ensure_chain(table: &str, chain: &str) -> (op: Op)
    ensures
        op@ == ensure_chain_step(table@, chain@),
{
    let check = ipt(table, &strings(vec!["-S", chain]));
    let create = ipt(table, &strings(vec!["-N", chain]));
    let op = Op::RunUnless(check, create);
    proof {
        assert(seq!["-S", chain].map_values(|s: &str| s@) =~= seq!["-S"@, chain@]);
        assert(seq!["-N", chain].map_values(|s: &str| s@) =~= seq!["-N"@, chain@]);
    }
    op
}

/// Delete every rule of `parent` in `table` that matches `spec`.
pub fn remove_all_jumps(table: &str, parent: &str, spec: &Vec<String>) -> (op: Op)
    ensures
        op@ == remove_jumps_step(table@, parent@, words(spec@)),
{
    let check = ipt(table, &concat(strings(vec!["-C", parent]), spec));
    let delete = ipt(table, &concat(strings(vec!["-D", parent]), spec));
    proof {
        assert(seq!["-C", parent].map_values(|s: &str| s@) =~= seq!["-C"@, parent@]);
        assert(seq!["-D", parent].map_values(|s: &str| s@) =~= seq!["-D"@, parent@]);
    }
    Op::DeleteAll(check, delete)
}

/// The rule that drops traffic from the public interface to the tailnet.
pub fn guard_spec(config: &Config) -> (r: Vec<String>)
    ensures
        words(r@) == guard_words(*config),
{
    let r = strings(
        vec![
            "-i",
            config.public_interface.as_str(),
            "-o",
            config.tailscale_interface.as_str(),
            "-j",
            "DROP",
        ],
    );
    assert(words(r@) =~= guard_words(*config));
    r
}

/// Appends one operation to a plan.
fn push_op(out: &mut Vec<Op>, op: Op)
    ensures
        steps(final(out)@) == steps(old(out)@).push(op@),
{
    let ghost prev = out@;
    let ghost v = op@;
    out.push(op);
    proof {
        assert forall|k: int| 0 <= k < out@.len() implies steps(out@)[k] == steps(prev).push(v)[k] by {
            if k < prev.len() {
                assert(steps(prev)[k] == prev[k]@);
            }
        }
        assert(steps(out@) =~= steps(prev).push(v));
    }
}

/// Whether no enabled forward before `i` has the same target as forward `i`.
fn is_first_of_target(config: &Config, i: usize) -> (r: bool)
    requires
        i < config.forwards@.len(),
    ensures
        r == first_of_target(*config, i as int),
{
    let f = &config.forwards[i];
    let mut j: usize = 0;
    while j < i
        invariant
            0 <= j <= i < config.forwards@.len(),
            f == config.forwards@[i as int],
            forall|k: int|
                0 <= k < j ==> !((#[trigger] config.forwards@[k]).enabled && masquerade_key(
                    config.forwards@[k],
                ) == masquerade_key(*f)),
        decreases i - j,
    {
        let g = &config.forwards[j];
        if g.enabled && g.target_ip == f.target_ip && g.protocol == f.protocol && g.target_port
            == f.target_port {
            assert(config.forwards@[j as int].enabled && masquerade_key(config.forwards@[j as int])
                == masquerade_key(*f));
            return false;
        }
        j = j + 1;
    }
    true
}

/// Appends the operations that install forward `i`.
fn push_forward_ops(config: &Config, i: usize, out: &mut Vec<Op>)
    requires
        i < config.forwards@.len(),
    ensures
        steps(final(out)@) == steps(old(out)@) + forward_steps(*config, i as int),
{
    let f = &config.forwards[i];
    if !f.enabled {
        assert(steps(out@) =~= steps(out@) + forward_steps(*config, i as int));
        return ;
    }
    let ghost start = steps(out@);
    let ip = ipv4_to_string(f.target_ip);
    let target = u16_text(f.target_port);
    let public = u16_text(f.public_port);
    let mut destination = ipv4_to_string(f.target_ip);
    push_char(&mut destination, ':');
    push_decimal(&mut destination, f.target_port as u32);
    assert(destination@ =~= destination_text(*f));
    let protocol = f.protocol.as_str();
    let dnat_args = strings(
        vec![
            "-A",
            PRE,
            "-p",
            protocol,
            "--dport",
            public.as_str(),
            "-j",
            "DNAT",
            "--to-destination",
            destination.as_str(),
        ],
    );
    assert(words(dnat_args@) =~= dnat_words(*f));
    push_op(out, Op::Run(ipt("nat", &dnat_args)));
    let accept_args = strings(
        vec![
            "-I",
            FWD,
            "1",
            "-m",
            "conntrack",
            "--ctstate",
            "DNAT",
            "-d",
            ip.as_str(),
            "-p",
            protocol,
            "--dport",
            target.as_str(),
            "-j",
            "ACCEPT",
        ],
    );
    assert(words(accept_args@) =~= accept_words(*f));
    push_op(out, Op::Run(ipt("filter", &accept_args)));
    if is_first_of_target(config, i) {
        let masquerade_args = strings(
            vec![
                "-A",
                POST,
                "-m",
                "conntrack",
                "--ctstate",
                "DNAT",
                "-d",
                ip.as_str(),
                "-o",
                config.tailscale_interface.as_str(),
                "-p",
                protocol,
                "--dport",
                target.as_str(),
                "-j",
                "MASQUERADE",
            ],
        );
        assert(words(masquerade_args@) =~= masquerade_words(*config, *f));
        push_op(out, Op::Run(ipt("nat", &masquerade_args)));
    }
    assert(steps(out@) =~= start + forward_steps(*config, i as int));
}

/// The operations that rebuild the managed chains for `config`, or the first
/// rule that `config` breaks. Nothing is planned for a configuration that
/// does not validate.
pub fn apply(config: &Config) -> (r: Result<Vec<Op>, ConfigError>)
    ensures
        match r {
            Ok(ops) => config_valid(*config) && steps(ops@) == plan_steps(*config),
            Err(e) => config_outcome(*config) == Err::<(), ConfigError>(e),
        },
{
    match config.validate() {
        Err(e) => {
            return Err(e);
        },
        Ok(()) => {},
    }
    let mut ops: Vec<Op> = Vec::new();
    push_op(&mut ops, ensure_chain("filter", FWD));
    push_op(&mut ops, ensure_chain("nat", PRE));
    push_op(&mut ops, ensure_chain("nat", POST));
    let guard = guard_spec(config);
    let guard_check = ipt("filter", &concat(strings(vec!["-C", "FORWARD"]), &guard));
    let guard_insert = ipt("filter", &concat(strings(vec!["-I", "FORWARD", "1"]), &guard));
    proof {
        assert(seq!["-C", "FORWARD"].map_values(|s: &str| s@) =~= seq!["-C"@, "FORWARD"@]);
        assert(seq!["-I", "FORWARD", "1"].map_values(|s: &str| s@) =~= seq![
            "-I"@,
            "FORWARD"@,
            "1"@,
        ]);
    }
    push_op(&mut ops, Op::RunUnless(guard_check, guard_insert));
    push_op(&mut ops, Op::Run(ipt("filter", &strings(vec!["-F", FWD]))));
    push_op(&mut ops, Op::Run(ipt("filter", &strings(vec!["-A", FWD, "-j", "DROP"]))));
    push_op(&mut ops, Op::Run(ipt("nat", &strings(vec!["-F", PRE]))));
    push_op(&mut ops, Op::Run(ipt("nat", &strings(vec!["-F", POST]))));
    proof {
        assert(seq!["-F", FWD].map_values(|s: &str| s@) =~= seq!["-F"@, FWD@]);
        assert(seq!["-A", FWD, "-j", "DROP"].map_values(|s: &str| s@) =~= seq![
            "-A"@,
            FWD@,
            "-j"@,
            "DROP"@,
        ]);
        assert(seq!["-F", PRE].map_values(|s: &str| s@) =~= seq!["-F"@, PRE@]);
        assert(seq!["-F", POST].map_values(|s: &str| s@) =~= seq!["-F"@, POST@]);
        assert(steps(ops@) =~= head_steps(*config));
    }
    let n = config.forwards.len();
    let mut i: usize = 0;
    while i < n
        invariant
            0 <= i <= n == config.forwards@.len(),
            steps(ops@) == head_steps(*config) + forwards_steps(*config, i as int),
        decreases n - i,
    {
        push_forward_ops(config, i, &mut ops);
        assert(steps(ops@) =~= head_steps(*config) + forwards_steps(*config, i + 1));
        i = i + 1;
    }
    let ghost body = steps(ops@);
    let pre_spec = strings(vec!["-i", config.public_interface.as_str(), "-j", PRE]);
    assert(words(pre_spec@) =~= seq!["-i"@, config.public_interface@, "-j"@, PRE@]);
    push_op(&mut ops, remove_all_jumps("nat", "PREROUTING", &pre_spec));
    let pre_jump = strings(
        vec!["-I", "PREROUTING", "1", "-i", config.public_interface.as_str(), "-j", PRE],
    );
    assert(words(pre_jump@) =~= seq![
        "-I"@,
        "PREROUTING"@,
        "1"@,
        "-i"@,
        config.public_interface@,
        "-j"@,
        PRE@,
    ]);
    push_op(&mut ops, Op::Run(ipt("nat", &pre_jump)));
    let post_spec = strings(vec!["-j", POST]);
    assert(words(post_spec@) =~= seq!["-j"@, POST@]);
    push_op(&mut ops, remove_all_jumps("nat", "POSTROUTING", &post_spec));
    let post_jump = strings(vec!["-A", "POSTROUTING", "-j", POST]);
    assert(words(post_jump@) =~= seq!["-A"@, "POSTROUTING"@, "-j"@, POST@]);
    push_op(&mut ops, Op::Run(ipt("nat", &post_jump)));
    let forward_spec = strings(
        vec![
            "-i",
            config.public_interface.as_str(),
            "-o",
            config.tailscale_interface.as_str(),
            "-j",
            FWD,
        ],
    );
    assert(words(forward_spec@) =~= seq![
        "-i"@,
        config.public_interface@,
        "-o"@,
        config.tailscale_interface@,
        "-j"@,
        FWD@,
    ]);
    push_op(&mut ops, remove_all_jumps("filter", "FORWARD", &forward_spec));
    let forward_jump = strings(
        vec![
            "-I",
            "FORWARD",
            "1",
            "-i",
            config.public_interface.as_str(),
            "-o",
            config.tailscale_interface.as_str(),
            "-j",
            FWD,
        ],
    );
    assert(words(forward_jump@) =~= seq![
        "-I"@,
        "FORWARD"@,
        "1"@,
        "-i"@,
        config.public_interface@,
        "-o"@,
        config.tailscale_interface@,
        "-j"@,
        FWD@,
    ]);
    push_op(&mut ops, Op::Run(ipt("filter", &forward_jump)));
    push_op(&mut ops, remove_all_jumps("filter", "FORWARD", &guard));
    proof {
        assert(steps(ops@) =~= body + tail_steps(*config));
    }
    Ok(ops)
}

/// What the walk through a plan waits for.
#[derive(Clone, Copy, Debug, PartialEq, Eq, Structural)]
pub enum Stage {
    /// The check of the current step was issued.
    AwaitCheck,
    /// The command of the current step was issued.
    AwaitRun,
    /// Every step is done.
    Done,
}

/// Where the walk through a plan stands: the current step and what it waits for.
#[derive(Clone, Copy, Debug, PartialEq, Eq, Structural)]
pub struct Cursor {
    pub index: usize,
    pub stage: Stage,
}

/// What the caller is to do next.
pub enum Action {
    /// Run this check and report whether it succeeded.
    Check(Vec<String>),
    /// Run this command; report when it succeeded (a failure ends the update).
    Run(Vec<String>),
    /// The update is complete.
    Finish,
}

/// An action, as character sequences.
pub enum ActionSpec {
    Check(Seq<Seq<char>>),
    Run(Seq<Seq<char>>),
    Finish,
}

impl View for Action {
    type V = ActionSpec;

    open spec fn view(&self) -> ActionSpec {
        match self {
            Action::Check(a) => ActionSpec::Check(words(a@)),
            Action::Run(a) => ActionSpec::Run(words(a@)),
            Action::Finish => ActionSpec::Finish,
        }
    }
}

/// What came of the last action.
#[derive(Clone, Copy, Debug, PartialEq, Eq, Structural)]
pub enum Outcome {
    /// The check ran; whether the rule or chain it looks for exists.
    Checked(bool),
    /// The command ran successfully.
    Ran,
}

/// The first action of step `i` (or the end of the plan).
pub open spec fn begin_step(plan: Seq<Step>, i: int) -> (Cursor, ActionSpec) {
    if i >= plan.len() {
        (Cursor { index: plan.len() as usize, stage: Stage::Done }, ActionSpec::Finish)
    } else {
        match plan[i] {
            Step::Run(a) => (Cursor { index: i as usize, stage: Stage::AwaitRun }, ActionSpec::Run(a)),
            Step::RunUnless(c, _) => (
                Cursor { index: i as usize, stage: Stage::AwaitCheck },
                ActionSpec::Check(c),
            ),
            Step::DeleteAll(c, _) => (
                Cursor { index: i as usize, stage: Stage::AwaitCheck },
                ActionSpec::Check(c),
            ),
        }
    }
}

/// A cursor that the walk can be at, waiting for an outcome.
pub open spec fn cursor_waits(plan: Seq<Step>, c: Cursor) -> bool {
    &&& c.index < plan.len()
    &&& c.stage != Stage::Done
    &&& (c.stage == Stage::AwaitCheck ==> !(plan[c.index as int] is Run))
}

/// The outcome answers what the cursor waits for.
pub open spec fn outcome_fits(c: Cursor, o: Outcome) -> bool {
    (c.stage == Stage::AwaitCheck) == (o is Checked)
}

/// The next cursor and action after outcome `o` at cursor `c`: a step that
/// runs unless its check holds is skipped when it holds; a step that deletes
/// while its check holds alternates deletion and check until the check fails.
pub open spec fn next_step(plan: Seq<Step>, c: Cursor, o: Outcome) -> (Cursor, ActionSpec) {
    let i = c.index as int;
    match (plan[i], o) {
        (Step::RunUnless(_, a), Outcome::Checked(held)) => if held {
            begin_step(plan, i + 1)
        } else {
            (Cursor { index: c.index, stage: Stage::AwaitRun }, ActionSpec::Run(a))
        },
        (Step::DeleteAll(_, d), Outcome::Checked(held)) => if held {
            (Cursor { index: c.index, stage: Stage::AwaitRun }, ActionSpec::Run(d))
        } else {
            begin_step(plan, i + 1)
        },
        (Step::DeleteAll(check, _), Outcome::Ran) => (
            Cursor { index: c.index, stage: Stage::AwaitCheck },
            ActionSpec::Check(check),
        ),
        _ => begin_step(plan, i + 1),
    }
}

/// A copy of an argument list.
fn copy_words(v: &Vec<String>) -> (r: Vec<String>)
    ensures
        words(r@) == words(v@),
{
    concat(Vec::new(), v)
}

/// The first action of step `i`.
fn begin(plan: &Vec<Op>, i: usize) -> (r: (Cursor, Action))
    ensures
        (r.0, r.1@) == begin_step(steps(plan@), i as int),
        r.0.stage != Stage::Done ==> cursor_waits(steps(plan@), r.0),
{
    if i >= plan.len() {
        return (Cursor { index: plan.len(), stage: Stage::Done }, Action::Finish);
    }
    assert(steps(plan@)[i as int] == plan@[i as int]@);
    match &plan[i] {
        Op::Run(a) => (Cursor { index: i, stage: Stage::AwaitRun }, Action::Run(copy_words(a))),
        Op::RunUnless(c, _) => (
            Cursor { index: i, stage: Stage::AwaitCheck },
            Action::Check(copy_words(c)),
        ),
        Op::DeleteAll(c, _) => (
            Cursor { index: i, stage: Stage::AwaitCheck },
            Action::Check(copy_words(c)),
        ),
    }
}

/// Starts walking a plan: the first action.
pub fn start(plan: &Vec<Op>) -> (r: (Cursor, Action))
    ensures
        (r.0, r.1@) == begin_step(steps(plan@), 0),
        r.0.stage != Stage::Done ==> cursor_waits(steps(plan@), r.0),
{
    begin(plan, 0)
}

/// One move of the walk: given what came of the last action, the next
/// cursor and action.
pub fn advance(plan: &Vec<Op>, cursor: Cursor, outcome: Outcome) -> (r: (Cursor, Action))
    requires
        cursor_waits(steps(plan@), cursor),
        outcome_fits(cursor, outcome),
    ensures
        (r.0, r.1@) == next_step(steps(plan@), cursor, outcome),
        r.0.stage != Stage::Done ==> cursor_waits(steps(plan@), r.0),
{
    let i = cursor.index;
    assert(steps(plan@).len() == plan@.len());
    assert(i < plan.len());
    assert(steps(plan@)[i as int] == plan@[i as int]@);
    match (&plan[i], outcome) {
        (Op::RunUnless(_, a), Outcome::Checked(held)) => {
            if held {
                begin(plan, i + 1)
            } else {
                (Cursor { index: i, stage: Stage::AwaitRun }, Action::Run(copy_words(a)))
            }
        },
        (Op::DeleteAll(_, d), Outcome::Checked(held)) => {
            if held {
                (Cursor { index: i, stage: Stage::AwaitRun }, Action::Run(copy_words(d)))
            } else {
                begin(plan, i + 1)
            }
        },
        (Op::DeleteAll(check, _), Outcome::Ran) => (
            Cursor { index: i, stage: Stage::AwaitCheck },
            Action::Check(copy_words(check)),
        ),
        _ => begin(plan, i + 1),
    }
}

/// The command that deletes the guard from FORWARD.
pub open spec fn guard_delete_words(c: Config) -> Seq<Seq<char>> {
    ipt_words("filter"@, seq!["-D"@, "FORWARD"@] + guard_words(c))
}

/// A step that can delete the guard.
pub open spec fn deletes_guard(s: Step, c: Config) -> bool {
    match s {
        Step::Run(a) => a == guard_delete_words(c),
        Step::RunUnless(_, a) => a == guard_delete_words(c),
        Step::DeleteAll(_, a) => a == guard_delete_words(c),
    }
}

/// A step that only appends or inserts a rule (its fifth word is `-A` or `-I`).
pub open spec fn adds_rule(s: Step) -> bool {
    s matches Step::Run(a) && a.len() > 4 && (a[4] == "-A"@ || a[4] == "-I"@)
}

proof fn lemma_words_differ(a: Seq<char>, b: Seq<char>, k: int)
    requires
        0 <= k < a.len(),
        0 <= k < b.len(),
        a[k] != b[k],
    ensures
        a != b,
{
}

proof fn lemma_forwards_steps_add_rules(c: Config, n: int)
    ensures
        forall|k: int|
            0 <= k < forwards_steps(c, n).len() ==> adds_rule(#[trigger] forwards_steps(c, n)[k]),
    decreases n,
{
    if n > 0 {
        lemma_forwards_steps_add_rules(c, n - 1);
        let prev = forwards_steps(c, n - 1);
        let here = forward_steps(c, n - 1);
        assert forall|k: int| 0 <= k < here.len() implies adds_rule(#[trigger] here[k]) by {}
        assert forall|k: int| 0 <= k < (prev + here).len() implies adds_rule(#[trigger] (prev
            + here)[k]) by {
            if k < prev.len() {
                assert((prev + here)[k] == prev[k]);
            } else {
                assert((prev + here)[k] == here[k - prev.len()]);
            }
        }
    }
}

/// An update never deletes its guard before its last step: the guard is put
/// in place (fourth step) before any managed chain is flushed, and only the
/// final step removes it, so an update that stops early leaves public traffic
/// to the tailnet dropped.
pub proof fn law_guard_held_until_last_step(c: Config)
    ensures
        plan_steps(c)[3] == guard_insert_step(c),
        plan_steps(c).last() == guard_remove_step(c),
        deletes_guard(plan_steps(c).last(), c),
        forall|k: int| 0 <= k < plan_steps(c).len() - 1 ==> !deletes_guard(#[trigger] plan_steps(c)[k], c),
{
    reveal_strlit("-D");
    reveal_strlit("-A");
    reveal_strlit("-I");
    reveal_strlit("-N");
    reveal_strlit("-F");
    reveal_strlit("-S");
    reveal_strlit("FORWARD");
    reveal_strlit("PREROUTING");
    reveal_strlit("POSTROUTING");
    reveal_strlit("DROP");
    reveal_strlit("TAILNAT_FWD");
    let head = head_steps(c);
    let body = forwards_steps(c, c.forwards@.len() as int);
    let tail = tail_steps(c);
    let plan = plan_steps(c);
    let g = guard_delete_words(c);
    assert(plan == head + body + tail);
    assert(g[4] == "-D"@);
    assert(g[5] == "FORWARD"@);
    assert(g.len() == 12);
    assert(g[11] == "DROP"@);
    lemma_words_differ("-A"@, "-D"@, 1);
    lemma_words_differ("-I"@, "-D"@, 1);
    lemma_words_differ("-N"@, "-D"@, 1);
    lemma_words_differ("-F"@, "-D"@, 1);
    lemma_words_differ("PREROUTING"@, "FORWARD"@, 0);
    lemma_words_differ("POSTROUTING"@, "FORWARD"@, 0);
    lemma_forwards_steps_add_rules(c, c.forwards@.len() as int);
    assert forall|k: int| 0 <= k < plan.len() - 1 implies !deletes_guard(#[trigger] plan[k], c) by {
        if k < head.len() {
            assert(plan[k] == head[k]);
        } else if k < head.len() + body.len() {
            assert(plan[k] == body[k - head.len()]);
            assert(adds_rule(body[k - head.len()]));
        } else {
            let t = k - head.len() - body.len();
            assert(plan[k] == tail[t]);
            if t == 4 {
                let d = ipt_words(
                    "filter"@,
                    seq!["-D"@, "FORWARD"@] + seq![
                        "-i"@,
                        c.public_interface@,
                        "-o"@,
                        c.tailscale_interface@,
                        "-j"@,
                        FWD@,
                    ],
                );
                assert(d[11] == FWD@);
                assert(FWD@.len() != "DROP"@.len());
                assert(d[11] != g[11]);
            }
        }
    }
    assert(plan[3] == head[3]);
    assert(plan.last() == tail[6]);
}

/// A step that appends a DNAT rule to the managed nat chain.
pub open spec fn is_dnat_step(s: Step) -> bool {
    s matches Step::Run(a) && a.len() == 14 && a[3] == "nat"@ && a[4] == "-A"@ && a[5] == PRE@
}

/// The step that installs the DNAT rule of forward `f`.
pub open spec fn dnat_step(f: Forward) -> Step {
    Step::Run(ipt_words("nat"@, dnat_words(f)))
}

proof fn lemma_no_dnat(s: Seq<Step>)
    requires
        forall|i: int| 0 <= i < s.len() ==> !is_dnat_step(#[trigger] s[i]),
    ensures
        s.filter(|x: Step| is_dnat_step(x)) == Seq::<Step>::empty(),
    decreases s.len(),
{
    reveal_with_fuel(Seq::filter, 1);
    if s.len() > 0 {
        let t = s.drop_last();
        assert forall|i: int| 0 <= i < t.len() implies !is_dnat_step(#[trigger] t[i]) by {
            assert(t[i] == s[i]);
        }
        lemma_no_dnat(t);
        assert(!is_dnat_step(s.last()));
    }
}

proof fn lemma_literal_lengths()
    ensures
        "nat"@.len() == 3,
        "filter"@.len() == 6,
        "-A"@.len() == 2,
        "-I"@.len() == 2,
        "-F"@.len() == 2,
        "-N"@.len() == 2,
        "-C"@.len() == 2,
        "-D"@.len() == 2,
        "-S"@.len() == 2,
        "-A"@[1] != "-I"@[1],
        "-A"@[1] != "-F"@[1],
        "-A"@[1] != "-D"@[1],
        "-A"@[1] != "-C"@[1],
        "-A"@[1] != "-S"@[1],
        "-A"@[1] != "-N"@[1],
        "-I"@[1] != "-F"@[1],
        PRE@.len() == 11,
        POST@.len() == 12,
        FWD@.len() == 11,
        "POSTROUTING"@.len() == 11,
        PRE@[8] != "POSTROUTING"@[8],
        "PREROUTING"@.len() == 10,
        "-I"@[1] != "-N"@[1],
        FWD@[0] != "POSTROUTING"@[0],
{
    reveal_strlit("nat");
    reveal_strlit("filter");
    reveal_strlit("-A");
    reveal_strlit("-I");
    reveal_strlit("-F");
    reveal_strlit("-N");
    reveal_strlit("-C");
    reveal_strlit("-D");
    reveal_strlit("-S");
    reveal_strlit("TAILNAT_PRE");
    reveal_strlit("TAILNAT_POST");
    reveal_strlit("TAILNAT_FWD");
    reveal_strlit("POSTROUTING");
    reveal_strlit("PREROUTING");
}

proof fn lemma_forward_dnat(c: Config, i: int)
    requires
        0 <= i < c.forwards@.len(),
    ensures
        forward_steps(c, i).filter(|x: Step| is_dnat_step(x)) == (if c.forwards@[i].enabled {
            seq![dnat_step(c.forwards@[i])]
        } else {
            Seq::<Step>::empty()
        }),
{
    lemma_literal_lengths();
    let f = c.forwards@[i];
    let pd = |x: Step| is_dnat_step(x);
    if f.enabled {
        let d = dnat_step(f);
        let a = Step::Run(ipt_words("filter"@, accept_words(f)));
        let m = Step::Run(ipt_words("nat"@, masquerade_words(c, f)));
        assert(is_dnat_step(d));
        assert(!is_dnat_step(a));
        assert(!is_dnat_step(m)) by {
            assert(ipt_words("nat"@, masquerade_words(c, f))[5] == POST@);
        }
        let rest: Seq<Step> = if first_of_target(c, i) {
            seq![m]
        } else {
            seq![]
        };
        assert(forward_steps(c, i) == seq![d, a] + rest);
        lemma_no_dnat(rest);
        lemma_no_dnat(seq![a]);
        reveal_with_fuel(Seq::filter, 2);
        assert(seq![d, a].drop_last() =~= seq![d]);
        assert(seq![d].drop_last() =~= Seq::<Step>::empty());
        assert(seq![d, a].filter(pd) =~= seq![d]);
        Seq::filter_distributes_over_add(seq![d, a], rest, pd);
        assert(forward_steps(c, i).filter(pd) =~= seq![d]);
    } else {
        assert(forward_steps(c, i) =~= Seq::<Step>::empty());
        lemma_no_dnat(Seq::<Step>::empty());
    }
}

proof fn lemma_forwards_dnat(c: Config, n: int)
    requires
        0 <= n <= c.forwards@.len(),
    ensures
        forwards_steps(c, n).filter(|x: Step| is_dnat_step(x)) == c.forwards@.take(n).filter(
            |f: Forward| f.enabled,
        ).map_values(|f: Forward| dnat_step(f)),
    decreases n,
{
    let pd = |x: Step| is_dnat_step(x);
    let pe = |f: Forward| f.enabled;
    let ds = |f: Forward| dnat_step(f);
    if n == 0 {
        reveal_with_fuel(Seq::filter, 1);
        assert(c.forwards@.take(0) =~= Seq::<Forward>::empty());
        assert(forwards_steps(c, 0).filter(pd) =~= Seq::<Step>::empty());
        assert(c.forwards@.take(0).filter(pe).map_values(ds) =~= Seq::<Step>::empty());
    } else {
        lemma_forwards_dnat(c, n - 1);
        lemma_forward_dnat(c, n - 1);
        Seq::filter_distributes_over_add(forwards_steps(c, n - 1), forward_steps(c, n - 1), pd);
        let tk = c.forwards@.take(n);
        assert(tk.drop_last() =~= c.forwards@.take(n - 1));
        assert(tk.last() == c.forwards@[n - 1]);
        reveal_with_fuel(Seq::filter, 1);
        let prev = c.forwards@.take(n - 1).filter(pe);
        if c.forwards@[n - 1].enabled {
            assert(tk.filter(pe) == prev.push(c.forwards@[n - 1]));
            assert(tk.filter(pe).map_values(ds) =~= prev.map_values(ds) + seq![dnat_step(c.forwards@[n - 1])]);
        } else {
            assert(tk.filter(pe) == prev);
            assert(prev.map_values(ds) + Seq::<Step>::empty() =~= prev.map_values(ds));
        }
    }
}

/// An update installs exactly one DNAT rule in the managed chain for each
/// enabled forward, in the order of the forwards, and none for a paused one.
pub proof fn law_one_dnat_per_enabled_forward(c: Config)
    ensures
        plan_steps(c).filter(|x: Step| is_dnat_step(x)) == c.forwards@.filter(|f: Forward| f.enabled).map_values(
            |f: Forward| dnat_step(f),
        ),
{
    lemma_literal_lengths();
    let pd = |x: Step| is_dnat_step(x);
    let n = c.forwards@.len() as int;
    lemma_forwards_dnat(c, n);
    assert(c.forwards@.take(n) =~= c.forwards@);
    let head = head_steps(c);
    let tail = tail_steps(c);
    assert forall|i: int| 0 <= i < head.len() implies !is_dnat_step(#[trigger] head[i]) by {}
    assert forall|i: int| 0 <= i < tail.len() implies !is_dnat_step(#[trigger] tail[i]) by {}
    lemma_no_dnat(head);
    lemma_no_dnat(tail);
    Seq::filter_distributes_over_add(head, forwards_steps(c, n), pd);
    Seq::filter_distributes_over_add(head + forwards_steps(c, n), tail, pd);
    assert(plan_steps(c).filter(pd) =~= forwards_steps(c, n).filter(pd));
}

/// The step that masquerades connections to forward `f`'s target.
pub open spec fn masquerade_step(c: Config, f: Forward) -> Step {
    Step::Run(ipt_words("nat"@, masquerade_words(c, f)))
}

proof fn lemma_forward_steps_in_prefix(c: Config, j: int, n: int)
    requires
        0 <= j < n,
    ensures
        forall|x: Step| forward_steps(c, j).contains(x) ==> #[trigger] forwards_steps(c, n).contains(x),
    decreases n,
{
    let a = forwards_steps(c, n - 1);
    let b = forward_steps(c, n - 1);
    assert forall|x: Step| forward_steps(c, j).contains(x) implies #[trigger] forwards_steps(
        c,
        n,
    ).contains(x) by {
        assert(forwards_steps(c, n) == a + b);
        if j < n - 1 {
            lemma_forward_steps_in_prefix(c, j, n - 1);
            assert(forwards_steps(c, n - 1).contains(x));
            let k = choose|k: int| 0 <= k < a.len() && a[k] == x;
            assert((a + b)[k] == a[k]);
        } else {
            let k = choose|k: int| 0 <= k < b.len() && b[k] == x;
            assert((a + b)[a.len() + k] == x);
        }
    }
}

/// Every enabled forward's target gets a masquerade rule, so that return
/// traffic from the tailnet comes back through the gateway.
pub proof fn law_enabled_targets_masqueraded(c: Config, i: int)
    requires
        0 <= i < c.forwards@.len(),
        c.forwards@[i].enabled,
    ensures
        plan_steps(c).contains(masquerade_step(c, c.forwards@[i])),
{
    let fi = c.forwards@[i];
    let key = masquerade_key(fi);
    let same = |j: int| 0 <= j <= i && c.forwards@[j].enabled && masquerade_key(c.forwards@[j]) == key;
    assert(same(i));
    let j = lemma_least_index(same, i);
    assert(first_of_target(c, j)) by {
        assert forall|k: int| 0 <= k < j implies !((#[trigger] c.forwards@[k]).enabled
            && masquerade_key(c.forwards@[k]) == masquerade_key(c.forwards@[j])) by {
            assert(!same(k));
        }
    }
    let fj = c.forwards@[j];
    assert(masquerade_words(c, fj) == masquerade_words(c, fi));
    let steps_j = forward_steps(c, j);
    assert(steps_j[2] == masquerade_step(c, fj));
    assert(steps_j.contains(masquerade_step(c, fi)));
    lemma_forward_steps_in_prefix(c, j, c.forwards@.len() as int);
    let body = forwards_steps(c, c.forwards@.len() as int);
    assert(body.contains(masquerade_step(c, fi)));
    let k = choose|k: int| 0 <= k < body.len() && body[k] == masquerade_step(c, fi);
    let head = head_steps(c);
    assert(plan_steps(c)[head.len() + k] == masquerade_step(c, fi));
}

/// The least `j <= i` at which `p` holds, given that it holds at `i`.
proof fn lemma_least_index(p: spec_fn(int) -> bool, i: int) -> (j: int)
    requires
        p(i),
        i >= 0,
    ensures
        0 <= j <= i,
        p(j),
        forall|k: int| 0 <= k < j ==> !#[trigger] p(k),
    decreases i,
{
    if exists|k: int| 0 <= k < i && #[trigger] p(k) {
        let k = choose|k: int| 0 <= k < i && #[trigger] p(k);
        lemma_least_index(p, k)
    } else {
        i
    }
}

/// A step that appends a masquerade rule to the managed nat chain.
pub open spec fn is_masquerade_step(s: Step) -> bool {
    s matches Step::Run(a) && a.len() == 20 && a[3] == "nat"@ && a[4] == "-A"@ && a[5] == POST@
}

/// The forwards among the first `n` that get a masquerade rule: each enabled
/// forward whose target no earlier enabled forward has.
pub open spec fn masquerade_forwards(c: Config, n: int) -> Seq<Forward>
    decreases n,
{
    if n <= 0 {
        seq![]
    } else {
        masquerade_forwards(c, n - 1) + if c.forwards@[n - 1].enabled && first_of_target(c, n - 1) {
            seq![c.forwards@[n - 1]]
        } else {
            seq![]
        }
    }
}

/// `f` is one of the first `n` forwards, and an enabled one.
spec fn enabled_among(c: Config, n: int, f: Forward) -> bool {
    exists|k: int| 0 <= k < n && f == #[trigger] c.forwards@[k] && c.forwards@[k].enabled
}

proof fn lemma_no_masquerade(s: Seq<Step>)
    requires
        forall|i: int| 0 <= i < s.len() ==> !is_masquerade_step(#[trigger] s[i]),
    ensures
        s.filter(|x: Step| is_masquerade_step(x)) == Seq::<Step>::empty(),
    decreases s.len(),
{
    reveal_with_fuel(Seq::filter, 1);
    if s.len() > 0 {
        let t = s.drop_last();
        assert forall|i: int| 0 <= i < t.len() implies !is_masquerade_step(#[trigger] t[i]) by {
            assert(t[i] == s[i]);
        }
        lemma_no_masquerade(t);
    }
}

proof fn lemma_forward_masquerade(c: Config, i: int)
    requires
        0 <= i < c.forwards@.len(),
    ensures
        forward_steps(c, i).filter(|x: Step| is_masquerade_step(x)) == (if c.forwards@[i].enabled
            && first_of_target(c, i) {
            seq![masquerade_step(c, c.forwards@[i])]
        } else {
            Seq::<Step>::empty()
        }),
{
    lemma_literal_lengths();
    let f = c.forwards@[i];
    let pm = |x: Step| is_masquerade_step(x);
    if f.enabled {
        let d = dnat_step(f);
        let a = Step::Run(ipt_words("filter"@, accept_words(f)));
        let m = masquerade_step(c, f);
        assert(!is_masquerade_step(d)) by {
            assert(ipt_words("nat"@, dnat_words(f)).len() == 14);
        }
        assert(!is_masquerade_step(a));
        assert(is_masquerade_step(m));
        lemma_no_masquerade(seq![d, a]);
        let rest: Seq<Step> = if first_of_target(c, i) {
            seq![m]
        } else {
            seq![]
        };
        assert(forward_steps(c, i) == seq![d, a] + rest);
        Seq::filter_distributes_over_add(seq![d, a], rest, pm);
        reveal_with_fuel(Seq::filter, 2);
        assert(seq![m].drop_last() =~= Seq::<Step>::empty());
        assert(forward_steps(c, i).filter(pm) =~= rest);
    } else {
        assert(forward_steps(c, i) =~= Seq::<Step>::empty());
        lemma_no_masquerade(Seq::<Step>::empty());
    }
}

proof fn lemma_forwards_masquerade(c: Config, n: int)
    requires
        0 <= n <= c.forwards@.len(),
    ensures
        forwards_steps(c, n).filter(|x: Step| is_masquerade_step(x)) == masquerade_forwards(
            c,
            n,
        ).map_values(|f: Forward| masquerade_step(c, f)),
        forall|a: int|
            0 <= a < masquerade_forwards(c, n).len() ==> enabled_among(
                c,
                n,
                #[trigger] masquerade_forwards(c, n)[a],
            ),
        forall|a: int, b: int|
            0 <= a < b < masquerade_forwards(c, n).len() ==> masquerade_key(
                #[trigger] masquerade_forwards(c, n)[a],
            ) != masquerade_key(#[trigger] masquerade_forwards(c, n)[b]),
    decreases n,
{
    let pm = |x: Step| is_masquerade_step(x);
    let ms = |f: Forward| masquerade_step(c, f);
    if n == 0 {
        reveal_with_fuel(Seq::filter, 1);
        assert(forwards_steps(c, 0).filter(pm) =~= Seq::<Step>::empty());
        assert(masquerade_forwards(c, 0).map_values(ms) =~= Seq::<Step>::empty());
    } else {
        lemma_forwards_masquerade(c, n - 1);
        lemma_forward_masquerade(c, n - 1);
        Seq::filter_distributes_over_add(forwards_steps(c, n - 1), forward_steps(c, n - 1), pm);
        let prev = masquerade_forwards(c, n - 1);
        let f = c.forwards@[n - 1];
        let all = masquerade_forwards(c, n);
        if f.enabled && first_of_target(c, n - 1) {
            assert(all == prev + seq![f]);
            assert(all.map_values(ms) =~= prev.map_values(ms) + seq![masquerade_step(c, f)]);
            assert forall|a: int| 0 <= a < all.len() implies enabled_among(c, n, #[trigger] all[a]) by {
                if a < prev.len() {
                    assert(all[a] == prev[a]);
                    assert(enabled_among(c, n - 1, prev[a]));
                    let k = choose|k: int|
                        0 <= k < n - 1 && prev[a] == #[trigger] c.forwards@[k] && c.forwards@[k].enabled;
                    assert(all[a] == c.forwards@[k]);
                } else {
                    assert(all[a] == c.forwards@[n - 1]);
                }
            }
            assert forall|a: int, b: int| 0 <= a < b < all.len() implies masquerade_key(
                #[trigger] all[a],
            ) != masquerade_key(#[trigger] all[b]) by {
                assert(all[a] == prev[a]);
                if b < prev.len() {
                    assert(all[b] == prev[b]);
                } else {
                    assert(all[b] == f);
                    assert(enabled_among(c, n - 1, prev[a]));
                    let k = choose|k: int|
                        0 <= k < n - 1 && prev[a] == #[trigger] c.forwards@[k] && c.forwards@[k].enabled;
                    assert(!(c.forwards@[k].enabled && masquerade_key(c.forwards@[k])
                        == masquerade_key(c.forwards@[n - 1])));
                }
            }
        } else {
            assert(all =~= prev);
            assert(prev.map_values(ms) + Seq::<Step>::empty() =~= prev.map_values(ms));
            assert forall|a: int| 0 <= a < all.len() implies enabled_among(c, n, #[trigger] all[a]) by {
                assert(all[a] == prev[a]);
                assert(enabled_among(c, n - 1, prev[a]));
                let k = choose|k: int|
                    0 <= k < n - 1 && prev[a] == #[trigger] c.forwards@[k] && c.forwards@[k].enabled;
                assert(all[a] == c.forwards@[k]);
            }
        }
    }
}

proof fn lemma_ipt_words_injective(t: Seq<char>, a: Seq<Seq<char>>, b: Seq<Seq<char>>)
    requires
        ipt_words(t, a) == ipt_words(t, b),
    ensures
        a == b,
{
    assert(a =~= ipt_words(t, a).subrange(4, ipt_words(t, a).len() as int));
    assert(b =~= ipt_words(t, b).subrange(4, ipt_words(t, b).len() as int));
}

proof fn lemma_masquerade_words_injective(c: Config, f: Forward, g: Forward)
    requires
        masquerade_words(c, f) == masquerade_words(c, g),
    ensures
        masquerade_key(f) == masquerade_key(g),
{
    assert(masquerade_words(c, f)[7] == ipv4_text(f.target_ip));
    assert(masquerade_words(c, g)[7] == ipv4_text(g.target_ip));
    crate::ipv4::lemma_ipv4_text_injective(f.target_ip, g.target_ip);
    assert(masquerade_words(c, f)[11] == protocol_name(f.protocol));
    assert(masquerade_words(c, g)[11] == protocol_name(g.protocol));
    if f.protocol != g.protocol {
        assert(protocol_name(f.protocol)[0] != protocol_name(g.protocol)[0]);
    }
    assert(masquerade_words(c, f)[13] == decimal(f.target_port as nat));
    crate::text::lemma_decimal_injective(f.target_port as nat, g.target_port as nat);
}

/// An update installs one masquerade rule per target (address, protocol and
/// port) of the enabled forwards, never two alike: forwards that share a
/// target share its rule.
pub proof fn law_one_masquerade_per_target(c: Config)
    ensures
        plan_steps(c).filter(|x: Step| is_masquerade_step(x)) == masquerade_forwards(
            c,
            c.forwards@.len() as int,
        ).map_values(|f: Forward| masquerade_step(c, f)),
        plan_steps(c).filter(|x: Step| is_masquerade_step(x)).no_duplicates(),
{
    lemma_literal_lengths();
    let pm = |x: Step| is_masquerade_step(x);
    let n = c.forwards@.len() as int;
    lemma_forwards_masquerade(c, n);
    let head = head_steps(c);
    let tail = tail_steps(c);
    assert forall|i: int| 0 <= i < head.len() implies !is_masquerade_step(#[trigger] head[i]) by {}
    assert forall|i: int| 0 <= i < tail.len() implies !is_masquerade_step(#[trigger] tail[i]) by {
        if i == 3 {
            assert(ipt_words("nat"@, seq!["-A"@, "POSTROUTING"@, "-j"@, POST@]).len() == 8);
        }
    }
    lemma_no_masquerade(head);
    lemma_no_masquerade(tail);
    Seq::filter_distributes_over_add(head, forwards_steps(c, n), pm);
    Seq::filter_distributes_over_add(head + forwards_steps(c, n), tail, pm);
    let out = plan_steps(c).filter(pm);
    assert(out =~= forwards_steps(c, n).filter(pm));
    let mf = masquerade_forwards(c, n);
    assert forall|a: int, b: int| 0 <= a < out.len() && 0 <= b < out.len() && a != b implies out[a]
        != out[b] by {
        assert(out[a] == masquerade_step(c, mf[a]));
        assert(out[b] == masquerade_step(c, mf[b]));
        if out[a] == out[b] {
            lemma_ipt_words_injective("nat"@, masquerade_words(c, mf[a]), masquerade_words(c, mf[b]));
            lemma_masquerade_words_injective(c, mf[a], mf[b]);
            if a < b {
                assert(masquerade_key(mf[a]) != masquerade_key(mf[b]));
            } else {
                assert(masquerade_key(mf[b]) != masquerade_key(mf[a]));
            }
        }
    }
}

/// The rules of a chain, each by its words after the chain's name.
pub type ChainRules = Seq<Seq<Seq<char>>>;

/// What a step does to the rules of the managed chain `name` of `table`: a
/// flush empties it, an append adds a rule at its end, an insert at position
/// 1 adds one at its head; other steps leave it alone.
pub open spec fn chain_step(table: Seq<char>, name: Seq<char>, chain: ChainRules, s: Step) -> ChainRules {
    match s {
        Step::Run(a) => if a.len() > 5 && a[3] == table && a[5] == name {
            if a[4] == "-F"@ {
                seq![]
            } else if a[4] == "-A"@ {
                chain.push(a.skip(6))
            } else if a[4] == "-I"@ && a.len() > 6 && a[6] == "1"@ {
                seq![a.skip(7)] + chain
            } else {
                chain
            }
        } else {
            chain
        },
        _ => chain,
    }
}

/// The rules of the managed chain `name` of `table` after `steps`, starting
/// from `chain`.
pub open spec fn chain_after(table: Seq<char>, name: Seq<char>, chain: ChainRules, steps: Seq<Step>) -> ChainRules
    decreases steps.len(),
{
    if steps.len() == 0 {
        chain
    } else {
        chain_after(table, name, chain_step(table, name, chain, steps[0]), steps.drop_first())
    }
}

/// The accept rules of the first `n` enabled forwards, the latest first.
pub open spec fn accept_rules(c: Config, n: int) -> ChainRules
    decreases n,
{
    if n <= 0 {
        seq![]
    } else {
        (if c.forwards@[n - 1].enabled {
            seq![accept_words(c.forwards@[n - 1]).skip(3)]
        } else {
            seq![]
        }) + accept_rules(c, n - 1)
    }
}

proof fn lemma_chain_after_add(t: Seq<char>, n: Seq<char>, chain: ChainRules, a: Seq<Step>, b: Seq<Step>)
    ensures
        chain_after(t, n, chain, a + b) == chain_after(t, n, chain_after(t, n, chain, a), b),
    decreases a.len(),
{
    if a.len() == 0 {
        assert(a + b =~= b);
    } else {
        assert((a + b)[0] == a[0]);
        assert((a + b).drop_first() =~= a.drop_first() + b);
        lemma_chain_after_add(t, n, chain_step(t, n, chain, a[0]), a.drop_first(), b);
    }
}

proof fn lemma_chain_after_untouched(t: Seq<char>, n: Seq<char>, chain: ChainRules, a: Seq<Step>)
    requires
        forall|i: int| 0 <= i < a.len() ==> chain_step(t, n, chain, #[trigger] a[i]) == chain,
    ensures
        chain_after(t, n, chain, a) == chain,
    decreases a.len(),
{
    if a.len() > 0 {
        let rest = a.drop_first();
        assert forall|i: int| 0 <= i < rest.len() implies chain_step(t, n, chain, #[trigger] rest[i])
            == chain by {
            assert(rest[i] == a[i + 1]);
        }
        lemma_chain_after_untouched(t, n, chain, rest);
    }
}

proof fn lemma_forward_chain(c: Config, i: int, chain: ChainRules)
    requires
        0 <= i < c.forwards@.len(),
    ensures
        chain_after("filter"@, FWD@, chain, forward_steps(c, i)) == (if c.forwards@[i].enabled {
            seq![accept_words(c.forwards@[i]).skip(3)] + chain
        } else {
            chain
        }),
{
    lemma_literal_lengths();
    reveal_strlit("1");
    let f = c.forwards@[i];
    if f.enabled {
        let d = dnat_step(f);
        let a = Step::Run(ipt_words("filter"@, accept_words(f)));
        let m = masquerade_step(c, f);
        let rest: Seq<Step> = if first_of_target(c, i) {
            seq![m]
        } else {
            seq![]
        };
        assert(forward_steps(c, i) == seq![d, a] + rest);
        lemma_chain_after_add("filter"@, FWD@, chain, seq![d, a], rest);
        let aw = ipt_words("filter"@, accept_words(f));
        assert(aw.skip(7) =~= accept_words(f).skip(3));
        let after_a = seq![accept_words(f).skip(3)] + chain;
        assert(aw[4] == "-I"@);
        assert(aw[4] != "-F"@) by {
            assert(aw[4][1] != "-F"@[1]);
        }
        assert(aw[4] != "-A"@) by {
            assert(aw[4][1] != "-A"@[1]);
        }
        assert(aw[6] == "1"@);
        assert(chain_step("filter"@, FWD@, chain, d) == chain);
        assert(chain_step("filter"@, FWD@, chain, a) == after_a);
        assert(seq![d, a].drop_first() =~= seq![a]);
        assert(seq![a].drop_first() =~= Seq::<Step>::empty());
        assert(chain_after("filter"@, FWD@, chain, seq![a]) == chain_after("filter"@, FWD@, after_a, Seq::<Step>::empty()));
        assert(chain_after("filter"@, FWD@, chain, seq![d, a]) == chain_after("filter"@, FWD@, chain, seq![a]));
        assert(chain_after("filter"@, FWD@, chain, seq![d, a]) == after_a);
        assert forall|k: int| 0 <= k < rest.len() implies chain_step("filter"@, FWD@, after_a, #[trigger] rest[k])
            == after_a by {
            assert(ipt_words("nat"@, masquerade_words(c, f))[3] == "nat"@);
        }
        lemma_chain_after_untouched("filter"@, FWD@, after_a, rest);
    } else {
        assert(forward_steps(c, i) =~= Seq::<Step>::empty());
    }
}

proof fn lemma_forwards_chain(c: Config, n: int, chain: ChainRules)
    requires
        0 <= n <= c.forwards@.len(),
    ensures
        chain_after("filter"@, FWD@, chain, forwards_steps(c, n)) == accept_rules(c, n) + chain,
    decreases n,
{
    if n == 0 {
        assert(accept_rules(c, 0) + chain =~= chain);
    } else {
        lemma_chain_after_add("filter"@, FWD@, chain, forwards_steps(c, n - 1), forward_steps(c, n - 1));
        lemma_forwards_chain(c, n - 1, chain);
        lemma_forward_chain(c, n - 1, accept_rules(c, n - 1) + chain);
        let f = c.forwards@[n - 1];
        if f.enabled {
            assert(seq![accept_words(f).skip(3)] + (accept_rules(c, n - 1) + chain) =~= accept_rules(c, n) + chain);
        } else {
            assert(accept_rules(c, n) =~= accept_rules(c, n - 1));
        }
    }
}

/// Whatever the managed filter chain held before, after an update it holds
/// one accept rule for each enabled forward's target (the latest first) and
/// ends in a DROP: public traffic to the tailnet that no enabled forward
/// accepts is dropped, even where a stale DNAT rule elsewhere lets it in.
pub proof fn law_filter_chain_ends_in_drop(c: Config, before: ChainRules)
    ensures
        chain_after("filter"@, FWD@, before, plan_steps(c)) == accept_rules(c, c.forwards@.len() as int)
            + seq![seq!["-j"@, "DROP"@]],
{
    lemma_literal_lengths();
    reveal_strlit("1");
    reveal_strlit("FORWARD");
    let head = head_steps(c);
    let body = forwards_steps(c, c.forwards@.len() as int);
    let tail = tail_steps(c);
    let drop_rule: ChainRules = seq![seq!["-j"@, "DROP"@]];
    lemma_chain_after_add("filter"@, FWD@, before, head + body, tail);
    lemma_chain_after_add("filter"@, FWD@, before, head, body);
    // The head flushes the chain and appends the final DROP.
    let h1 = head.subrange(0, 4);
    let h2 = head.subrange(4, 8);
    assert(head =~= h1 + h2);
    lemma_chain_after_add("filter"@, FWD@, before, h1, h2);
    assert forall|k: int| 0 <= k < h1.len() implies chain_step("filter"@, FWD@, before, #[trigger] h1[k]) == before by {}
    lemma_chain_after_untouched("filter"@, FWD@, before, h1);
    let flush = ipt_words("filter"@, seq!["-F"@, FWD@]);
    let append = ipt_words("filter"@, seq!["-A"@, FWD@, "-j"@, "DROP"@]);
    assert(append.skip(6) =~= seq!["-j"@, "DROP"@]);
    assert(chain_step("filter"@, FWD@, before, Step::Run(flush)) == Seq::<Seq<Seq<char>>>::empty());
    assert(chain_step("filter"@, FWD@, Seq::<Seq<Seq<char>>>::empty(), Step::Run(append)) =~= drop_rule);
    let h3 = h2.subrange(2, 4);
    assert forall|k: int| 0 <= k < h3.len() implies chain_step("filter"@, FWD@, drop_rule, #[trigger] h3[k]) == drop_rule by {}
    lemma_chain_after_untouched("filter"@, FWD@, drop_rule, h3);
    assert(h2.drop_first().drop_first() =~= h3);
    assert(h2[0] == Step::Run(flush));
    assert(h2.drop_first()[0] == Step::Run(append));
    let empty = Seq::<Seq<Seq<char>>>::empty();
    assert(chain_after("filter"@, FWD@, empty, h2.drop_first()) == chain_after("filter"@, FWD@, drop_rule, h3));
    assert(chain_after("filter"@, FWD@, before, h2) == chain_after("filter"@, FWD@, empty, h2.drop_first()));
    assert(chain_after("filter"@, FWD@, before, h2) == drop_rule);
    assert(chain_after("filter"@, FWD@, before, head) == drop_rule);
    // Each enabled forward inserts its accept rule at the head.
    lemma_forwards_chain(c, c.forwards@.len() as int, drop_rule);
    let after_body = accept_rules(c, c.forwards@.len() as int) + drop_rule;
    // The tail touches other chains only.
    assert forall|k: int| 0 <= k < tail.len() implies chain_step("filter"@, FWD@, after_body, #[trigger] tail[k])
        == after_body by {
        if k == 5 {
            let w = ipt_words(
                "filter"@,
                seq![
                    "-I"@,
                    "FORWARD"@,
                    "1"@,
                    "-i"@,
                    c.public_interface@,
                    "-o"@,
                    c.tailscale_interface@,
                    "-j"@,
                    FWD@,
                ],
            );
            assert(w[5] == "FORWARD"@);
        }
    }
    lemma_chain_after_untouched("filter"@, FWD@, after_body, tail);
}

/// The DNAT rules of the enabled forwards among `fs`, in their order, each
/// by its words after the chain's name.
pub open spec fn dnat_rules(fs: Seq<Forward>) -> ChainRules {
    fs.filter(|f: Forward| f.enabled).map_values(|f: Forward| dnat_words(f).skip(2))
}

/// The masquerade rules of an update for `c`, one for each target of its
/// enabled forwards, each by its words after the chain's name.
pub open spec fn masquerade_rules(c: Config) -> ChainRules {
    masquerade_forwards(c, c.forwards@.len() as int).map_values(
        |f: Forward| masquerade_words(c, f).skip(2),
    )
}

proof fn lemma_chain_after_one(t: Seq<char>, n: Seq<char>, chain: ChainRules, s: Step)
    ensures
        chain_after(t, n, chain, seq![s]) == chain_step(t, n, chain, s),
{
    reveal_with_fuel(chain_after, 2);
    assert(seq![s].drop_first() =~= Seq::<Step>::empty());
}

proof fn lemma_forward_nat(c: Config, i: int, pre: ChainRules, post: ChainRules)
    requires
        0 <= i < c.forwards@.len(),
    ensures
        chain_after("nat"@, PRE@, pre, forward_steps(c, i)) == (if c.forwards@[i].enabled {
            pre.push(dnat_words(c.forwards@[i]).skip(2))
        } else {
            pre
        }),
        chain_after("nat"@, POST@, post, forward_steps(c, i)) == (if c.forwards@[i].enabled
            && first_of_target(c, i) {
            post.push(masquerade_words(c, c.forwards@[i]).skip(2))
        } else {
            post
        }),
{
    lemma_literal_lengths();
    let f = c.forwards@[i];
    let tn = "nat"@;
    if f.enabled {
        let dw = ipt_words(tn, dnat_words(f));
        let aw = ipt_words("filter"@, accept_words(f));
        let mw = ipt_words(tn, masquerade_words(c, f));
        let d = Step::Run(dw);
        let a = Step::Run(aw);
        let m = Step::Run(mw);
        let rest: Seq<Step> = if first_of_target(c, i) {
            seq![m]
        } else {
            seq![]
        };
        assert(forward_steps(c, i) == seq![d] + seq![a] + rest) by {
            assert(seq![d, a] =~= seq![d] + seq![a]);
        }
        assert(dw.skip(6) =~= dnat_words(f).skip(2));
        assert(mw.skip(6) =~= masquerade_words(c, f).skip(2));
        assert(aw[3] != tn);
        assert(dw[5] != POST@);
        assert(mw[5] != PRE@);
        // The managed DNAT chain gets the forward's DNAT rule at its end.
        let p1 = pre.push(dnat_words(f).skip(2));
        lemma_chain_after_add(tn, PRE@, pre, seq![d] + seq![a], rest);
        lemma_chain_after_add(tn, PRE@, pre, seq![d], seq![a]);
        lemma_chain_after_one(tn, PRE@, pre, d);
        lemma_chain_after_one(tn, PRE@, p1, a);
        assert forall|k: int| 0 <= k < rest.len() implies chain_step(tn, PRE@, p1, #[trigger] rest[k])
            == p1 by {}
        lemma_chain_after_untouched(tn, PRE@, p1, rest);
        // The masquerade chain gets a rule only for the first forward to a target.
        lemma_chain_after_add(tn, POST@, post, seq![d] + seq![a], rest);
        lemma_chain_after_add(tn, POST@, post, seq![d], seq![a]);
        lemma_chain_after_one(tn, POST@, post, d);
        lemma_chain_after_one(tn, POST@, post, a);
        if first_of_target(c, i) {
            lemma_chain_after_one(tn, POST@, post, m);
        } else {
            assert(rest =~= Seq::<Step>::empty());
        }
    } else {
        assert(forward_steps(c, i) =~= Seq::<Step>::empty());
    }
}

proof fn lemma_forwards_nat(c: Config, n: int, pre: ChainRules, post: ChainRules)
    requires
        0 <= n <= c.forwards@.len(),
    ensures
        chain_after("nat"@, PRE@, pre, forwards_steps(c, n)) == pre + dnat_rules(c.forwards@.take(n)),
        chain_after("nat"@, POST@, post, forwards_steps(c, n)) == post + masquerade_forwards(
            c,
            n,
        ).map_values(|f: Forward| masquerade_words(c, f).skip(2)),
    decreases n,
{
    let pe = |f: Forward| f.enabled;
    let dr = |f: Forward| dnat_words(f).skip(2);
    let mr = |f: Forward| masquerade_words(c, f).skip(2);
    let tn = "nat"@;
    if n == 0 {
        reveal_with_fuel(Seq::filter, 1);
        assert(c.forwards@.take(0) =~= Seq::<Forward>::empty());
        assert(dnat_rules(c.forwards@.take(0)) =~= Seq::<Seq<Seq<char>>>::empty());
        assert(pre + dnat_rules(c.forwards@.take(0)) =~= pre);
        assert(post + masquerade_forwards(c, 0).map_values(mr) =~= post);
    } else {
        let prev_pre = pre + dnat_rules(c.forwards@.take(n - 1));
        let prev_post = post + masquerade_forwards(c, n - 1).map_values(mr);
        lemma_forwards_nat(c, n - 1, pre, post);
        lemma_chain_after_add(tn, PRE@, pre, forwards_steps(c, n - 1), forward_steps(c, n - 1));
        lemma_chain_after_add(tn, POST@, post, forwards_steps(c, n - 1), forward_steps(c, n - 1));
        lemma_forward_nat(c, n - 1, prev_pre, prev_post);
        let f = c.forwards@[n - 1];
        let tk = c.forwards@.take(n);
        assert(tk.drop_last() =~= c.forwards@.take(n - 1));
        assert(tk.last() == f);
        reveal_with_fuel(Seq::filter, 1);
        let fp = c.forwards@.take(n - 1).filter(pe);
        if f.enabled {
            assert(tk.filter(pe) == fp.push(f));
            assert(tk.filter(pe).map_values(dr) =~= fp.map_values(dr).push(dr(f)));
            assert(pre + dnat_rules(tk) =~= prev_pre.push(dnat_words(f).skip(2)));
        } else {
            assert(tk.filter(pe) == fp);
            assert(pre + dnat_rules(tk) =~= prev_pre);
        }
        let mp = masquerade_forwards(c, n - 1);
        if f.enabled && first_of_target(c, n - 1) {
            assert(masquerade_forwards(c, n) == mp + seq![f]);
            assert(masquerade_forwards(c, n).map_values(mr) =~= mp.map_values(mr).push(mr(f)));
            assert(post + masquerade_forwards(c, n).map_values(mr) =~= prev_post.push(mr(f)));
        } else {
            assert(masquerade_forwards(c, n) =~= mp);
        }
    }
}

/// Whatever the two managed nat chains held before, after an update the
/// DNAT chain holds exactly the DNAT rule of each enabled forward, in the
/// order of the forwards, and the masquerade chain exactly one rule for each
/// target of the enabled forwards, no two alike.
pub proof fn law_nat_chains_rebuilt(c: Config, pre: ChainRules, post: ChainRules)
    ensures
        chain_after("nat"@, PRE@, pre, plan_steps(c)) == dnat_rules(c.forwards@),
        chain_after("nat"@, POST@, post, plan_steps(c)) == masquerade_rules(c),
        masquerade_rules(c).no_duplicates(),
{
    lemma_literal_lengths();
    let tn = "nat"@;
    let empty = Seq::<Seq<Seq<char>>>::empty();
    let n = c.forwards@.len() as int;
    let head = head_steps(c);
    let body = forwards_steps(c, n);
    let tail = tail_steps(c);
    // The head empties both chains.
    let h1 = head.subrange(0, 6);
    let fp = Step::Run(ipt_words(tn, seq!["-F"@, PRE@]));
    let fq = Step::Run(ipt_words(tn, seq!["-F"@, POST@]));
    assert(head =~= h1 + seq![fp] + seq![fq]);
    assert forall|k: int| 0 <= k < h1.len() implies chain_step(tn, PRE@, pre, #[trigger] h1[k]) == pre by {}
    assert forall|k: int| 0 <= k < h1.len() implies chain_step(tn, POST@, post, #[trigger] h1[k]) == post by {}
    lemma_chain_after_untouched(tn, PRE@, pre, h1);
    lemma_chain_after_untouched(tn, POST@, post, h1);
    lemma_chain_after_add(tn, PRE@, pre, h1 + seq![fp], seq![fq]);
    lemma_chain_after_add(tn, PRE@, pre, h1, seq![fp]);
    lemma_chain_after_add(tn, POST@, post, h1 + seq![fp], seq![fq]);
    lemma_chain_after_add(tn, POST@, post, h1, seq![fp]);
    lemma_chain_after_one(tn, PRE@, pre, fp);
    lemma_chain_after_one(tn, PRE@, empty, fq);
    lemma_chain_after_one(tn, POST@, post, fp);
    lemma_chain_after_one(tn, POST@, post, fq);
    assert(chain_after(tn, PRE@, pre, head) == empty);
    assert(chain_after(tn, POST@, post, head) == empty);
    // The forwards fill them.
    lemma_forwards_nat(c, n, empty, empty);
    assert(c.forwards@.take(n) =~= c.forwards@);
    let dr = dnat_rules(c.forwards@);
    let mr = masquerade_rules(c);
    assert(empty + dr =~= dr);
    assert(empty + mr =~= mr);
    lemma_chain_after_add(tn, PRE@, pre, head, body);
    lemma_chain_after_add(tn, POST@, post, head, body);
    // The tail touches other chains only.
    assert forall|k: int| 0 <= k < tail.len() implies chain_step(tn, PRE@, dr, #[trigger] tail[k]) == dr by {}
    assert forall|k: int| 0 <= k < tail.len() implies chain_step(tn, POST@, mr, #[trigger] tail[k]) == mr by {}
    lemma_chain_after_untouched(tn, PRE@, dr, tail);
    lemma_chain_after_untouched(tn, POST@, mr, tail);
    lemma_chain_after_add(tn, PRE@, pre, head + body, tail);
    lemma_chain_after_add(tn, POST@, post, head + body, tail);
    // Distinct targets give distinct rules.
    lemma_forwards_masquerade(c, n);
    let mf = masquerade_forwards(c, n);
    assert forall|a: int, b: int| 0 <= a < mr.len() && 0 <= b < mr.len() && a != b implies mr[a]
        != mr[b] by {
        if mr[a] == mr[b] {
            let wa = masquerade_words(c, mf[a]);
            let wb = masquerade_words(c, mf[b]);
            assert(wa =~= seq![wa[0], wa[1]] + wa.skip(2));
            assert(wb =~= seq![wb[0], wb[1]] + wb.skip(2));
            lemma_masquerade_words_injective(c, mf[a], mf[b]);
            if a < b {
                assert(masquerade_key(mf[a]) != masquerade_key(mf[b]));
            } else {
                assert(masquerade_key(mf[b]) != masquerade_key(mf[a]));
            }
        }
    }
}

/// Run a second time on what the first run left, an update leaves each
/// managed chain as the first run did: the forwards' rules are there once.
pub proof fn law_update_reapplied_once(c: Config, pre: ChainRules, post: ChainRules, fwd: ChainRules)
    ensures
        chain_after("nat"@, PRE@, chain_after("nat"@, PRE@, pre, plan_steps(c)), plan_steps(c))
            == chain_after("nat"@, PRE@, pre, plan_steps(c)),
        chain_after("nat"@, POST@, chain_after("nat"@, POST@, post, plan_steps(c)), plan_steps(c))
            == chain_after("nat"@, POST@, post, plan_steps(c)),
        chain_after("filter"@, FWD@, chain_after("filter"@, FWD@, fwd, plan_steps(c)), plan_steps(c))
            == chain_after("filter"@, FWD@, fwd, plan_steps(c)),
{
    law_nat_chains_rebuilt(c, pre, post);
    law_nat_chains_rebuilt(c, chain_after("nat"@, PRE@, pre, plan_steps(c)), chain_after("nat"@, POST@, post, plan_steps(c)));
    law_filter_chain_ends_in_drop(c, fwd);
    law_filter_chain_ends_in_drop(c, chain_after("filter"@, FWD@, fwd, plan_steps(c)));
}

/// What a step does to the rules of the built-in chain `parent` of `table`:
/// an append adds a rule at its end, an insert at position 1 adds one at its
/// head, an insert unless present adds it at the head if it is absent, and a
/// delete-while-present removes every copy of its rule.
pub open spec fn jump_chain_step(
    table: Seq<char>,
    parent: Seq<char>,
    chain: ChainRules,
    s: Step,
) -> ChainRules {
    match s {
        Step::Run(a) => if a.len() > 6 && a[3] == table && a[5] == parent {
            if a[4] == "-A"@ {
                chain.push(a.skip(6))
            } else if a[4] == "-I"@ && a[6] == "1"@ {
                seq![a.skip(7)] + chain
            } else {
                chain
            }
        } else {
            chain
        },
        Step::RunUnless(_, a) => if a.len() > 6 && a[3] == table && a[4] == "-I"@ && a[5] == parent
            && a[6] == "1"@ {
            if chain.contains(a.skip(7)) {
                chain
            } else {
                seq![a.skip(7)] + chain
            }
        } else {
            chain
        },
        Step::DeleteAll(_, d) => if d.len() > 5 && d[3] == table && d[4] == "-D"@ && d[5] == parent {
            without(chain, d.skip(6))
        } else {
            chain
        },
    }
}

/// The rules of the chain `parent` of `table` after `steps`, from `chain`.
pub open spec fn jump_chain_after(
    table: Seq<char>,
    parent: Seq<char>,
    chain: ChainRules,
    steps: Seq<Step>,
) -> ChainRules
    decreases steps.len(),
{
    if steps.len() == 0 {
        chain
    } else {
        jump_chain_after(
            table,
            parent,
            jump_chain_step(table, parent, chain, steps[0]),
            steps.drop_first(),
        )
    }
}

/// The chain without any copy of rule `r`.
pub open spec fn without(chain: ChainRules, r: Seq<Seq<char>>) -> ChainRules {
    chain.filter(|x: Seq<Seq<char>>| x != r)
}

/// How many copies of rule `r` a chain holds.
pub open spec fn copies(chain: ChainRules, r: Seq<Seq<char>>) -> nat
    decreases chain.len(),
{
    if chain.len() == 0 {
        0
    } else {
        copies(chain.drop_last(), r) + if chain.last() == r {
            1nat
        } else {
            0nat
        }
    }
}

proof fn lemma_copies_filtered(chain: ChainRules, q: Seq<Seq<char>>, r: Seq<Seq<char>>)
    ensures
        copies(without(chain, q), r) == if r == q {
            0
        } else {
            copies(chain, r)
        },
    decreases chain.len(),
{
    reveal_with_fuel(Seq::filter, 1);
    if chain.len() == 0 {
        assert(without(chain, q) =~= Seq::<Seq<Seq<char>>>::empty());
    } else {
        lemma_copies_filtered(chain.drop_last(), q, r);
        let f = without(chain.drop_last(), q);
        if chain.last() != q {
            assert(without(chain, q) == f.push(chain.last()));
            assert(f.push(chain.last()).drop_last() =~= f);
        } else {
            assert(without(chain, q) == f);
        }
    }
}

proof fn lemma_copies_prepend(chain: ChainRules, q: Seq<Seq<char>>, r: Seq<Seq<char>>)
    ensures
        copies(seq![q] + chain, r) == copies(chain, r) + if q == r {
            1nat
        } else {
            0nat
        },
    decreases chain.len(),
{
    let whole = seq![q] + chain;
    if chain.len() == 0 {
        assert(whole.drop_last() =~= Seq::<Seq<Seq<char>>>::empty());
        assert(whole.last() == q);
        assert(copies(Seq::<Seq<Seq<char>>>::empty(), r) == 0);
        assert(copies(chain, r) == 0);
    } else {
        lemma_copies_prepend(chain.drop_last(), q, r);
        assert(whole.drop_last() =~= seq![q] + chain.drop_last());
        assert(whole.last() == chain.last());
    }
}

proof fn lemma_copies_push(chain: ChainRules, q: Seq<Seq<char>>, r: Seq<Seq<char>>)
    ensures
        copies(chain.push(q), r) == copies(chain, r) + if q == r {
            1nat
        } else {
            0nat
        },
{
    assert(chain.push(q).drop_last() =~= chain);
}

/// The step changes the chain `parent` of `table` (see `jump_chain_step`).
pub open spec fn touches(table: Seq<char>, parent: Seq<char>, s: Step) -> bool {
    match s {
        Step::Run(a) => a.len() > 6 && a[3] == table && a[5] == parent,
        Step::RunUnless(_, a) => a.len() > 6 && a[3] == table && a[4] == "-I"@ && a[5] == parent
            && a[6] == "1"@,
        Step::DeleteAll(_, d) => d.len() > 5 && d[3] == table && d[4] == "-D"@ && d[5] == parent,
    }
}

proof fn lemma_jump_after_add(
    table: Seq<char>,
    parent: Seq<char>,
    chain: ChainRules,
    a: Seq<Step>,
    b: Seq<Step>,
)
    ensures
        jump_chain_after(table, parent, chain, a + b) == jump_chain_after(
            table,
            parent,
            jump_chain_after(table, parent, chain, a),
            b,
        ),
    decreases a.len(),
{
    if a.len() == 0 {
        assert(a + b =~= b);
    } else {
        assert((a + b)[0] == a[0]);
        assert((a + b).drop_first() =~= a.drop_first() + b);
        lemma_jump_after_add(
            table,
            parent,
            jump_chain_step(table, parent, chain, a[0]),
            a.drop_first(),
            b,
        );
    }
}

proof fn lemma_jump_after_untouched(
    table: Seq<char>,
    parent: Seq<char>,
    chain: ChainRules,
    a: Seq<Step>,
)
    requires
        forall|i: int| 0 <= i < a.len() ==> !touches(table, parent, #[trigger] a[i]),
    ensures
        jump_chain_after(table, parent, chain, a) == chain,
    decreases a.len(),
{
    if a.len() > 0 {
        let t = a.drop_first();
        assert forall|i: int| 0 <= i < t.len() implies !touches(table, parent, #[trigger] t[i]) by {
            assert(t[i] == a[i + 1]);
        }
        assert(!touches(table, parent, a[0]));
        lemma_jump_after_untouched(table, parent, chain, t);
    }
}

/// A delete-while-present of rule `r`, then an insert or append of `r`, then
/// steps that leave the chain alone: one copy of `r` stands at the end.
proof fn lemma_one_left(
    table: Seq<char>,
    parent: Seq<char>,
    chain: ChainRules,
    steps: Seq<Step>,
    r: Seq<Seq<char>>,
)
    requires
        steps.len() >= 2,
        touches(table, parent, steps[0]),
        steps[0] matches Step::DeleteAll(_, d) && d.skip(6) == r,
        touches(table, parent, steps[1]),
        steps[1] matches Step::Run(a) && ((a[4] == "-I"@ && a[6] == "1"@ && a.skip(7) == r) || (a[4]
            == "-A"@ && a.skip(6) == r)),
        forall|i: int| 2 <= i < steps.len() ==> !touches(table, parent, #[trigger] steps[i]),
    ensures
        copies(jump_chain_after(table, parent, chain, steps), r) == 1,
{
    reveal_strlit("-A");
    reveal_strlit("-I");
    assert("-I"@ != "-A"@) by {
        assert("-I"@[1] != "-A"@[1]);
    }
    let removed = jump_chain_step(table, parent, chain, steps[0]);
    lemma_copies_filtered(chain, r, r);
    assert(copies(removed, r) == 0);
    let placed = jump_chain_step(table, parent, removed, steps[1]);
    lemma_copies_prepend(removed, r, r);
    lemma_copies_push(removed, r, r);
    assert(copies(placed, r) == 1);
    let later = steps.drop_first().drop_first();
    assert forall|i: int| 0 <= i < later.len() implies !touches(table, parent, #[trigger] later[i]) by {
        assert(later[i] == steps[i + 2]);
    }
    lemma_jump_after_untouched(table, parent, placed, later);
    assert(steps.drop_first()[0] == steps[1]);
    assert(jump_chain_after(table, parent, chain, steps) == jump_chain_after(
        table,
        parent,
        removed,
        steps.drop_first(),
    ));
    assert(jump_chain_after(table, parent, removed, steps.drop_first()) == jump_chain_after(
        table,
        parent,
        placed,
        later,
    ));
}

/// Whatever the built-in chains held before, after an update each jump into
/// a managed chain stands exactly once (so applying again leaves one copy,
/// not two), and the guard is gone.
pub proof fn law_jumps_once_guard_gone(
    c: Config,
    prerouting: ChainRules,
    postrouting: ChainRules,
    forward: ChainRules,
)
    ensures
        copies(
            jump_chain_after("nat"@, "PREROUTING"@, prerouting, plan_steps(c)),
            seq!["-i"@, c.public_interface@, "-j"@, PRE@],
        ) == 1,
        copies(
            jump_chain_after("nat"@, "POSTROUTING"@, postrouting, plan_steps(c)),
            seq!["-j"@, POST@],
        ) == 1,
        copies(
            jump_chain_after("filter"@, "FORWARD"@, forward, plan_steps(c)),
            seq!["-i"@, c.public_interface@, "-o"@, c.tailscale_interface@, "-j"@, FWD@],
        ) == 1,
        copies(jump_chain_after("filter"@, "FORWARD"@, forward, plan_steps(c)), guard_words(c)) == 0,
{
    lemma_literal_lengths();
    reveal_strlit("1");
    reveal_strlit("FORWARD");
    reveal_strlit("PREROUTING");
    reveal_strlit("POSTROUTING");
    reveal_strlit("TAILNAT_FWD");
    reveal_strlit("DROP");
    let plan = plan_steps(c);
    let tail = tail_steps(c);
    let front = head_steps(c) + forwards_steps(c, c.forwards@.len() as int);
    assert(plan == front + tail);
    let pre_jump = seq!["-i"@, c.public_interface@, "-j"@, PRE@];
    let post_jump = seq!["-j"@, POST@];
    let fwd_jump = seq!["-i"@, c.public_interface@, "-o"@, c.tailscale_interface@, "-j"@, FWD@];
    let guard = guard_words(c);
    assert("PREROUTING"@.len() == 10);
    assert("FORWARD"@.len() == 7);
    // PREROUTING: the tail's first two steps leave one jump, the rest do not touch it.
    lemma_jump_after_add("nat"@, "PREROUTING"@, prerouting, front, tail);
    assert(ipt_words("nat"@, seq!["-D"@, "PREROUTING"@] + pre_jump).skip(6) =~= pre_jump);
    assert(ipt_words(
        "nat"@,
        seq!["-I"@, "PREROUTING"@, "1"@, "-i"@, c.public_interface@, "-j"@, PRE@],
    ).skip(7) =~= pre_jump);
    assert forall|i: int| 2 <= i < tail.len() implies !touches("nat"@, "PREROUTING"@, #[trigger] tail[i]) by {}
    lemma_one_left(
        "nat"@,
        "PREROUTING"@,
        jump_chain_after("nat"@, "PREROUTING"@, prerouting, front),
        tail,
        pre_jump,
    );
    // POSTROUTING: the third and fourth steps leave one jump.
    let t2 = tail.subrange(2, 7);
    assert(tail =~= tail.subrange(0, 2) + t2);
    let post_front = jump_chain_after("nat"@, "POSTROUTING"@, postrouting, front);
    lemma_jump_after_add("nat"@, "POSTROUTING"@, postrouting, front, tail);
    lemma_jump_after_add("nat"@, "POSTROUTING"@, post_front, tail.subrange(0, 2), t2);
    assert(ipt_words("nat"@, seq!["-D"@, "POSTROUTING"@] + post_jump).skip(6) =~= post_jump);
    assert(ipt_words("nat"@, seq!["-A"@, "POSTROUTING"@, "-j"@, POST@]).skip(6) =~= post_jump);
    assert(t2[0] == tail[2]);
    assert(t2[1] == tail[3]);
    assert forall|i: int| 2 <= i < t2.len() implies !touches("nat"@, "POSTROUTING"@, #[trigger] t2[i]) by {
        assert(t2[i] == tail[i + 2]);
    }
    lemma_one_left(
        "nat"@,
        "POSTROUTING"@,
        jump_chain_after("nat"@, "POSTROUTING"@, post_front, tail.subrange(0, 2)),
        t2,
        post_jump,
    );
    // FORWARD: the fifth and sixth steps leave one jump; the last removes the guard.
    let t4 = tail.subrange(4, 7);
    assert(tail =~= tail.subrange(0, 4) + t4);
    let fwd_front = jump_chain_after("filter"@, "FORWARD"@, forward, front);
    lemma_jump_after_add("filter"@, "FORWARD"@, forward, front, tail);
    lemma_jump_after_add("filter"@, "FORWARD"@, fwd_front, tail.subrange(0, 4), t4);
    let fwd0 = jump_chain_after("filter"@, "FORWARD"@, fwd_front, tail.subrange(0, 4));
    assert(ipt_words("filter"@, seq!["-D"@, "FORWARD"@] + fwd_jump).skip(6) =~= fwd_jump);
    assert(ipt_words(
        "filter"@,
        seq![
            "-I"@,
            "FORWARD"@,
            "1"@,
            "-i"@,
            c.public_interface@,
            "-o"@,
            c.tailscale_interface@,
            "-j"@,
            FWD@,
        ],
    ).skip(7) =~= fwd_jump);
    assert(ipt_words("filter"@, seq!["-D"@, "FORWARD"@] + guard).skip(6) =~= guard);
    assert(fwd_jump != guard) by {
        assert(fwd_jump[5].len() != guard[5].len());
    }
    assert(t4[0] == tail[4]);
    assert(t4[1] == tail[5]);
    assert(t4[2] == tail[6]);
    let removed = jump_chain_step("filter"@, "FORWARD"@, fwd0, t4[0]);
    let inserted = seq![fwd_jump] + removed;
    assert(jump_chain_step("filter"@, "FORWARD"@, removed, t4[1]) == inserted);
    let last = jump_chain_step("filter"@, "FORWARD"@, inserted, t4[2]);
    lemma_copies_filtered(fwd0, fwd_jump, fwd_jump);
    lemma_copies_prepend(removed, fwd_jump, fwd_jump);
    lemma_copies_filtered(inserted, guard, fwd_jump);
    lemma_copies_filtered(inserted, guard, guard);
    assert(t4.drop_first()[0] == t4[1]);
    assert(t4.drop_first().drop_first()[0] == t4[2]);
    assert(t4.drop_first().drop_first().drop_first() =~= Seq::<Step>::empty());
    let tb = "filter"@;
    let pa = "FORWARD"@;
    assert(jump_chain_after(tb, pa, fwd0, t4) == jump_chain_after(tb, pa, removed, t4.drop_first()));
    assert(jump_chain_after(tb, pa, removed, t4.drop_first()) == jump_chain_after(
        tb,
        pa,
        inserted,
        t4.drop_first().drop_first(),
    ));
    assert(jump_chain_after(tb, pa, inserted, t4.drop_first().drop_first()) == jump_chain_after(
        tb,
        pa,
        last,
        t4.drop_first().drop_first().drop_first(),
    ));
    assert(jump_chain_after(tb, pa, fwd0, t4) == last);
}

/// A step that adds a rule to one of the managed chains.
spec fn runs_in_managed_chain(s: Step) -> bool {
    s matches Step::Run(a) && a.len() > 6 && (a[5] == PRE@ || a[5] == FWD@ || a[5] == POST@)
}

proof fn lemma_forwards_steps_managed(c: Config, n: int)
    ensures
        forall|k: int|
            0 <= k < forwards_steps(c, n).len() ==> runs_in_managed_chain(
                #[trigger] forwards_steps(c, n)[k],
            ),
    decreases n,
{
    if n > 0 {
        lemma_forwards_steps_managed(c, n - 1);
        let prev = forwards_steps(c, n - 1);
        let here = forward_steps(c, n - 1);
        assert forall|k: int| 0 <= k < here.len() implies runs_in_managed_chain(#[trigger] here[k]) by {}
        assert forall|k: int| 0 <= k < (prev + here).len() implies runs_in_managed_chain(
            #[trigger] (prev + here)[k],
        ) by {
            if k < prev.len() {
                assert((prev + here)[k] == prev[k]);
            } else {
                assert((prev + here)[k] == here[k - prev.len()]);
            }
        }
    }
}

proof fn lemma_without_push(y: ChainRules, x: Seq<Seq<char>>, r: Seq<Seq<char>>)
    ensures
        without(y.push(x), r) == if x == r {
            without(y, r)
        } else {
            without(y, r).push(x)
        },
{
    reveal_with_fuel(Seq::filter, 1);
    assert(y.push(x).drop_last() =~= y);
}

proof fn lemma_without_twice(y: ChainRules, r: Seq<Seq<char>>)
    ensures
        without(without(y, r), r) == without(y, r),
    decreases y.len(),
{
    if y.len() == 0 {
        reveal_with_fuel(Seq::filter, 1);
        assert(without(y, r) =~= y);
    } else {
        let init = y.drop_last();
        assert(y == init.push(y.last()));
        lemma_without_twice(init, r);
        lemma_without_push(init, y.last(), r);
        if y.last() != r {
            lemma_without_push(without(init, r), y.last(), r);
        }
    }
}

proof fn lemma_without_commute(y: ChainRules, a: Seq<Seq<char>>, b: Seq<Seq<char>>)
    ensures
        without(without(y, a), b) == without(without(y, b), a),
    decreases y.len(),
{
    if y.len() == 0 {
        reveal_with_fuel(Seq::filter, 1);
        assert(without(y, a) =~= y);
        assert(without(y, b) =~= y);
    } else {
        let init = y.drop_last();
        let x = y.last();
        assert(y == init.push(x));
        lemma_without_commute(init, a, b);
        lemma_without_push(init, x, a);
        lemma_without_push(init, x, b);
        if x != a {
            lemma_without_push(without(init, a), x, b);
        }
        if x != b {
            lemma_without_push(without(init, b), x, a);
        }
    }
}

proof fn lemma_without_prepend(x: Seq<Seq<char>>, y: ChainRules, r: Seq<Seq<char>>)
    ensures
        without(seq![x] + y, r) == if x == r {
            without(y, r)
        } else {
            seq![x] + without(y, r)
        },
    decreases y.len(),
{
    if y.len() == 0 {
        reveal_with_fuel(Seq::filter, 1);
        assert(seq![x] + y =~= Seq::<Seq<Seq<char>>>::empty().push(x));
        lemma_without_push(Seq::<Seq<Seq<char>>>::empty(), x, r);
        assert(without(y, r) =~= y);
        assert(without(Seq::<Seq<Seq<char>>>::empty(), r) =~= Seq::<Seq<Seq<char>>>::empty());
        assert(seq![x] + without(y, r) =~= Seq::<Seq<Seq<char>>>::empty().push(x));
    } else {
        let init = y.drop_last();
        let z = y.last();
        assert(seq![x] + y =~= (seq![x] + init).push(z));
        assert(y == init.push(z));
        lemma_without_prepend(x, init, r);
        lemma_without_push(seq![x] + init, z, r);
        lemma_without_push(init, z, r);
        if x != r && z != r {
            assert((seq![x] + without(init, r)).push(z) =~= seq![x] + without(init, r).push(z));
        }
    }
}

/// Unfold one step of the built-in chain model.
proof fn lemma_jump_after_one(t: Seq<char>, p: Seq<char>, chain: ChainRules, s: Step)
    ensures
        jump_chain_after(t, p, chain, seq![s]) == jump_chain_step(t, p, chain, s),
{
    reveal_with_fuel(jump_chain_after, 2);
    assert(seq![s].drop_first() =~= Seq::<Step>::empty());
}

/// What the steps before the tail do to the built-in chains: they leave
/// PREROUTING and POSTROUTING alone and put the guard at the head of FORWARD
/// unless it is there.
proof fn lemma_builtin_front(c: Config, pr: ChainRules, po: ChainRules, fw: ChainRules)
    ensures
        jump_chain_after(
            "nat"@,
            "PREROUTING"@,
            pr,
            head_steps(c) + forwards_steps(c, c.forwards@.len() as int),
        ) == pr,
        jump_chain_after(
            "nat"@,
            "POSTROUTING"@,
            po,
            head_steps(c) + forwards_steps(c, c.forwards@.len() as int),
        ) == po,
        jump_chain_after(
            "filter"@,
            "FORWARD"@,
            fw,
            head_steps(c) + forwards_steps(c, c.forwards@.len() as int),
        ) == if fw.contains(guard_words(c)) {
            fw
        } else {
            seq![guard_words(c)] + fw
        },
{
    lemma_literal_lengths();
    reveal_strlit("1");
    reveal_strlit("FORWARD");
    assert("FORWARD"@.len() == 7);
    let head = head_steps(c);
    let body = forwards_steps(c, c.forwards@.len() as int);
    let front = head + body;
    lemma_forwards_steps_managed(c, c.forwards@.len() as int);
    let tn = "nat"@;
    let filter = "filter"@;
    assert forall|k: int| 0 <= k < body.len() implies !touches(tn, "PREROUTING"@, #[trigger] body[k])
        && !touches(tn, "POSTROUTING"@, body[k]) && !touches(filter, "FORWARD"@, body[k]) by {
        assert(runs_in_managed_chain(body[k]));
    }
    assert forall|k: int| 0 <= k < front.len() implies !touches(tn, "PREROUTING"@, #[trigger] front[k])
        && !touches(tn, "POSTROUTING"@, front[k]) by {
        if k >= head.len() {
            assert(front[k] == body[k - head.len()]);
        }
    }
    lemma_jump_after_untouched(tn, "PREROUTING"@, pr, front);
    lemma_jump_after_untouched(tn, "POSTROUTING"@, po, front);
    let h0 = head.subrange(0, 3);
    let rest = head.subrange(4, 8) + body;
    assert(front =~= h0 + seq![head[3]] + rest);
    assert forall|k: int| 0 <= k < h0.len() implies !touches(filter, "FORWARD"@, #[trigger] h0[k]) by {}
    assert forall|k: int| 0 <= k < rest.len() implies !touches(filter, "FORWARD"@, #[trigger] rest[k]) by {
        if k >= 4 {
            assert(rest[k] == body[k - 4]);
        }
    }
    lemma_jump_after_untouched(filter, "FORWARD"@, fw, h0);
    lemma_jump_after_add(filter, "FORWARD"@, fw, h0 + seq![head[3]], rest);
    lemma_jump_after_add(filter, "FORWARD"@, fw, h0, seq![head[3]]);
    lemma_jump_after_one(filter, "FORWARD"@, fw, head[3]);
    let ins = ipt_words(filter, seq!["-I"@, "FORWARD"@, "1"@] + guard_words(c));
    assert(ins.skip(7) =~= guard_words(c));
    let placed = jump_chain_step(filter, "FORWARD"@, fw, head[3]);
    lemma_jump_after_untouched(filter, "FORWARD"@, placed, rest);
}

/// Whatever the built-in chains held before, an update leaves PREROUTING
/// with the jump into the managed DNAT chain at its head and no other copy
/// of it, POSTROUTING with the jump into the masquerade chain at its end and
/// no other copy, and FORWARD with the jump into the managed filter chain at
/// its head, no other copy of it, and no guard; every other rule of those
/// chains stays, in its order.
pub proof fn law_builtin_chains_after_update(c: Config, pr: ChainRules, po: ChainRules, fw: ChainRules)
    ensures
        jump_chain_after("nat"@, "PREROUTING"@, pr, plan_steps(c)) == seq![
            seq!["-i"@, c.public_interface@, "-j"@, PRE@],
        ] + without(pr, seq!["-i"@, c.public_interface@, "-j"@, PRE@]),
        jump_chain_after("nat"@, "POSTROUTING"@, po, plan_steps(c)) == without(
            po,
            seq!["-j"@, POST@],
        ).push(seq!["-j"@, POST@]),
        jump_chain_after("filter"@, "FORWARD"@, fw, plan_steps(c)) == seq![
            seq!["-i"@, c.public_interface@, "-o"@, c.tailscale_interface@, "-j"@, FWD@],
        ] + without(
            without(fw, seq!["-i"@, c.public_interface@, "-o"@, c.tailscale_interface@, "-j"@, FWD@]),
            guard_words(c),
        ),
{
    lemma_literal_lengths();
    reveal_strlit("1");
    reveal_strlit("FORWARD");
    reveal_strlit("DROP");
    assert("FORWARD"@.len() == 7);
    let tn = "nat"@;
    let filter = "filter"@;
    let plan = plan_steps(c);
    let tail = tail_steps(c);
    let front = head_steps(c) + forwards_steps(c, c.forwards@.len() as int);
    assert(plan == front + tail);
    lemma_builtin_front(c, pr, po, fw);
    let pj = seq!["-i"@, c.public_interface@, "-j"@, PRE@];
    let qj = seq!["-j"@, POST@];
    let fj = seq!["-i"@, c.public_interface@, "-o"@, c.tailscale_interface@, "-j"@, FWD@];
    let guard = guard_words(c);
    assert(fj != guard) by {
        assert(fj[5].len() != guard[5].len());
    }
    assert(ipt_words(tn, seq!["-D"@, "PREROUTING"@] + pj).skip(6) =~= pj);
    assert(ipt_words(tn, seq!["-I"@, "PREROUTING"@, "1"@, "-i"@, c.public_interface@, "-j"@, PRE@]).skip(7) =~= pj);
    assert(ipt_words(tn, seq!["-D"@, "POSTROUTING"@] + qj).skip(6) =~= qj);
    assert(ipt_words(tn, seq!["-A"@, "POSTROUTING"@, "-j"@, POST@]).skip(6) =~= qj);
    assert(ipt_words(filter, seq!["-D"@, "FORWARD"@] + fj).skip(6) =~= fj);
    assert(ipt_words(
        filter,
        seq!["-I"@, "FORWARD"@, "1"@, "-i"@, c.public_interface@, "-o"@, c.tailscale_interface@, "-j"@, FWD@],
    ).skip(7) =~= fj);
    assert(ipt_words(filter, seq!["-D"@, "FORWARD"@] + guard).skip(6) =~= guard);
    let t01 = tail.subrange(0, 2);
    let t23 = tail.subrange(2, 4);
    let t46 = tail.subrange(4, 7);
    assert(tail =~= t01 + t23 + t46);
    assert(t01 =~= seq![tail[0]] + seq![tail[1]]);
    assert(t23 =~= seq![tail[2]] + seq![tail[3]]);
    assert(t46 =~= seq![tail[4]] + seq![tail[5]] + seq![tail[6]]);
    // PREROUTING
    lemma_jump_after_add(tn, "PREROUTING"@, pr, front, tail);
    lemma_jump_after_add(tn, "PREROUTING"@, pr, t01 + t23, t46);
    lemma_jump_after_add(tn, "PREROUTING"@, pr, t01, t23);
    lemma_jump_after_add(tn, "PREROUTING"@, pr, seq![tail[0]], seq![tail[1]]);
    lemma_jump_after_one(tn, "PREROUTING"@, pr, tail[0]);
    let p1 = without(pr, pj);
    lemma_jump_after_one(tn, "PREROUTING"@, p1, tail[1]);
    let p2 = seq![pj] + p1;
    assert forall|k: int| 0 <= k < t23.len() implies !touches(tn, "PREROUTING"@, #[trigger] t23[k]) by {}
    assert forall|k: int| 0 <= k < t46.len() implies !touches(tn, "PREROUTING"@, #[trigger] t46[k]) by {}
    lemma_jump_after_untouched(tn, "PREROUTING"@, p2, t23);
    lemma_jump_after_untouched(tn, "PREROUTING"@, p2, t46);
    // POSTROUTING
    lemma_jump_after_add(tn, "POSTROUTING"@, po, front, tail);
    lemma_jump_after_add(tn, "POSTROUTING"@, po, t01 + t23, t46);
    lemma_jump_after_add(tn, "POSTROUTING"@, po, t01, t23);
    assert forall|k: int| 0 <= k < t01.len() implies !touches(tn, "POSTROUTING"@, #[trigger] t01[k]) by {}
    lemma_jump_after_untouched(tn, "POSTROUTING"@, po, t01);
    lemma_jump_after_add(tn, "POSTROUTING"@, po, seq![tail[2]], seq![tail[3]]);
    lemma_jump_after_one(tn, "POSTROUTING"@, po, tail[2]);
    let q1 = without(po, qj);
    lemma_jump_after_one(tn, "POSTROUTING"@, q1, tail[3]);
    let q2 = q1.push(qj);
    assert forall|k: int| 0 <= k < t46.len() implies !touches(tn, "POSTROUTING"@, #[trigger] t46[k]) by {}
    lemma_jump_after_untouched(tn, "POSTROUTING"@, q2, t46);
    // FORWARD
    let f0 = if fw.contains(guard) {
        fw
    } else {
        seq![guard] + fw
    };
    lemma_jump_after_add(filter, "FORWARD"@, fw, front, tail);
    lemma_jump_after_add(filter, "FORWARD"@, f0, t01 + t23, t46);
    assert forall|k: int| 0 <= k < (t01 + t23).len() implies !touches(filter, "FORWARD"@, #[trigger] (t01 + t23)[k]) by {}
    lemma_jump_after_untouched(filter, "FORWARD"@, f0, t01 + t23);
    lemma_jump_after_add(filter, "FORWARD"@, f0, seq![tail[4]] + seq![tail[5]], seq![tail[6]]);
    lemma_jump_after_add(filter, "FORWARD"@, f0, seq![tail[4]], seq![tail[5]]);
    lemma_jump_after_one(filter, "FORWARD"@, f0, tail[4]);
    let g1 = without(f0, fj);
    lemma_jump_after_one(filter, "FORWARD"@, g1, tail[5]);
    let g2 = seq![fj] + g1;
    lemma_jump_after_one(filter, "FORWARD"@, g2, tail[6]);
    lemma_without_prepend(fj, g1, guard);
    // The guard that the head may have put in front goes with the others.
    lemma_without_prepend(guard, fw, fj);
    lemma_without_prepend(guard, without(fw, fj), guard);
    lemma_without_twice(without(fw, fj), guard);
}

proof fn lemma_head_jump_settles(x: ChainRules, j: Seq<Seq<char>>)
    ensures
        seq![j] + without(seq![j] + without(x, j), j) == seq![j] + without(x, j),
{
    lemma_without_prepend(j, without(x, j), j);
    lemma_without_twice(x, j);
}

proof fn lemma_end_jump_settles(x: ChainRules, j: Seq<Seq<char>>)
    ensures
        without(without(x, j).push(j), j).push(j) == without(x, j).push(j),
{
    lemma_without_push(without(x, j), j, j);
    lemma_without_twice(x, j);
}

proof fn lemma_forward_jump_settles(x: ChainRules, j: Seq<Seq<char>>, g: Seq<Seq<char>>)
    requires
        j != g,
    ensures
        seq![j] + without(without(seq![j] + without(without(x, j), g), j), g) == seq![j] + without(
            without(x, j),
            g,
        ),
{
    let y = without(without(x, j), g);
    lemma_without_prepend(j, y, j);
    lemma_without_commute(without(x, j), g, j);
    lemma_without_twice(x, j);
    lemma_without_twice(without(x, j), g);
}

/// Run a second time on what the first run left, an update leaves each
/// built-in chain as the first run did: each jump stands once, in its place.
pub proof fn law_builtin_chains_reapplied_once(c: Config, pr: ChainRules, po: ChainRules, fw: ChainRules)
    ensures
        jump_chain_after(
            "nat"@,
            "PREROUTING"@,
            jump_chain_after("nat"@, "PREROUTING"@, pr, plan_steps(c)),
            plan_steps(c),
        ) == jump_chain_after("nat"@, "PREROUTING"@, pr, plan_steps(c)),
        jump_chain_after(
            "nat"@,
            "POSTROUTING"@,
            jump_chain_after("nat"@, "POSTROUTING"@, po, plan_steps(c)),
            plan_steps(c),
        ) == jump_chain_after("nat"@, "POSTROUTING"@, po, plan_steps(c)),
        jump_chain_after(
            "filter"@,
            "FORWARD"@,
            jump_chain_after("filter"@, "FORWARD"@, fw, plan_steps(c)),
            plan_steps(c),
        ) == jump_chain_after("filter"@, "FORWARD"@, fw, plan_steps(c)),
{
    let plan = plan_steps(c);
    let pj = seq!["-i"@, c.public_interface@, "-j"@, PRE@];
    let qj = seq!["-j"@, POST@];
    let fj = seq!["-i"@, c.public_interface@, "-o"@, c.tailscale_interface@, "-j"@, FWD@];
    let guard = guard_words(c);
    let pr1 = jump_chain_after("nat"@, "PREROUTING"@, pr, plan);
    let po1 = jump_chain_after("nat"@, "POSTROUTING"@, po, plan);
    let fw1 = jump_chain_after("filter"@, "FORWARD"@, fw, plan);
    let pr2 = jump_chain_after("nat"@, "PREROUTING"@, pr1, plan);
    let po2 = jump_chain_after("nat"@, "POSTROUTING"@, po1, plan);
    let fw2 = jump_chain_after("filter"@, "FORWARD"@, fw1, plan);
    assert(pr1 == seq![pj] + without(pr, pj) && po1 == without(po, qj).push(qj) && fw1 == seq![fj]
        + without(without(fw, fj), guard)) by {
        law_builtin_chains_after_update(c, pr, po, fw);
    }
    assert(pr2 == seq![pj] + without(pr1, pj) && po2 == without(po1, qj).push(qj) && fw2 == seq![fj]
        + without(without(fw1, fj), guard)) by {
        law_builtin_chains_after_update(c, pr1, po1, fw1);
    }
    assert(fj != guard) by {
        lemma_literal_lengths();
        reveal_strlit("DROP");
        assert(fj[5].len() != guard[5].len());
    }
    lemma_head_jump_settles(pr, pj);
    lemma_end_jump_settles(po, qj);
    lemma_forward_jump_settles(fw, fj, guard);
}

proof fn lemma_accept_rules_contain(c: Config, n: int, i: int)
    requires
        0 <= i < n <= c.forwards@.len(),
        c.forwards@[i].enabled,
    ensures
        accept_rules(c, n).contains(accept_words(c.forwards@[i]).skip(3)),
    decreases n,
{
    let r = accept_words(c.forwards@[i]).skip(3);
    if i == n - 1 {
        assert(accept_rules(c, n)[0] == r);
    } else {
        lemma_accept_rules_contain(c, n - 1, i);
        let k = choose|k: int| 0 <= k < accept_rules(c, n - 1).len() && #[trigger] accept_rules(c, n - 1)[k] == r;
        let head: ChainRules = if c.forwards@[n - 1].enabled {
            seq![accept_words(c.forwards@[n - 1]).skip(3)]
        } else {
            seq![]
        };
        assert(accept_rules(c, n) == head + accept_rules(c, n - 1));
        assert(accept_rules(c, n)[head.len() + k] == r);
    }
}

/// After an update, whatever the chains held before, each enabled forward
/// has its DNAT rule in the managed nat chain and an accept rule in the
/// managed filter chain, and both name the forward's own protocol: the
/// DNAT rule maps its protocol and public port to its target, and the accept
/// rule lets DNAT-ed connections of that protocol to that target through.
pub proof fn law_enabled_forward_installed(c: Config, pre: ChainRules, fwd: ChainRules, i: int)
    requires
        0 <= i < c.forwards@.len(),
        c.forwards@[i].enabled,
    ensures
        chain_after("nat"@, PRE@, pre, plan_steps(c)).contains(
            seq![
                "-p"@,
                protocol_name(c.forwards@[i].protocol),
                "--dport"@,
                decimal(c.forwards@[i].public_port as nat),
                "-j"@,
                "DNAT"@,
                "--to-destination"@,
                ipv4_text(c.forwards@[i].target_ip) + seq![':'] + decimal(
                    c.forwards@[i].target_port as nat,
                ),
            ],
        ),
        chain_after("filter"@, FWD@, fwd, plan_steps(c)).contains(
            seq![
                "-m"@,
                "conntrack"@,
                "--ctstate"@,
                "DNAT"@,
                "-d"@,
                ipv4_text(c.forwards@[i].target_ip),
                "-p"@,
                protocol_name(c.forwards@[i].protocol),
                "--dport"@,
                decimal(c.forwards@[i].target_port as nat),
                "-j"@,
                "ACCEPT"@,
            ],
        ),
{
    let f = c.forwards@[i];
    let n = c.forwards@.len() as int;
    // The filter chain.
    law_filter_chain_ends_in_drop(c, fwd);
    lemma_accept_rules_contain(c, n, i);
    let ar = accept_words(f).skip(3);
    assert(ar =~= seq![
        "-m"@,
        "conntrack"@,
        "--ctstate"@,
        "DNAT"@,
        "-d"@,
        ipv4_text(f.target_ip),
        "-p"@,
        protocol_name(f.protocol),
        "--dport"@,
        decimal(f.target_port as nat),
        "-j"@,
        "ACCEPT"@,
    ]);
    let accepts = accept_rules(c, n);
    let k = choose|k: int| 0 <= k < accepts.len() && #[trigger] accepts[k] == ar;
    assert((accepts + seq![seq!["-j"@, "DROP"@]])[k] == ar);
    // The nat chain.
    law_nat_chains_rebuilt(c, pre, Seq::<Seq<Seq<char>>>::empty());
    let pe = |g: Forward| g.enabled;
    let en = c.forwards@.filter(pe);
    c.forwards@.filter_lemma(pe);
    assert(en.contains(f));
    let m = choose|m: int| 0 <= m < en.len() && #[trigger] en[m] == f;
    let dr = dnat_words(f).skip(2);
    assert(dr =~= seq![
        "-p"@,
        protocol_name(f.protocol),
        "--dport"@,
        decimal(f.public_port as nat),
        "-j"@,
        "DNAT"@,
        "--to-destination"@,
        ipv4_text(f.target_ip) + seq![':'] + decimal(f.target_port as nat),
    ]);
    assert(dnat_rules(c.forwards@)[m] == dr);
}

/// After an update, whatever the masquerade chain held before, each enabled
/// forward's target is masqueraded towards the tailnet: the chain holds a
/// rule for DNAT-ed connections of the forward's protocol to its target
/// address and port, leaving by the Tailscale interface.
pub proof fn law_enabled_target_masqueraded(c: Config, post: ChainRules, i: int)
    requires
        0 <= i < c.forwards@.len(),
        c.forwards@[i].enabled,
    ensures
        chain_after("nat"@, POST@, post, plan_steps(c)).contains(
            seq![
                "-m"@,
                "conntrack"@,
                "--ctstate"@,
                "DNAT"@,
                "-d"@,
                ipv4_text(c.forwards@[i].target_ip),
                "-o"@,
                c.tailscale_interface@,
                "-p"@,
                protocol_name(c.forwards@[i].protocol),
                "--dport"@,
                decimal(c.forwards@[i].target_port as nat),
                "-j"@,
                "MASQUERADE"@,
            ],
        ),
{
    lemma_literal_lengths();
    let f = c.forwards@[i];
    let n = c.forwards@.len() as int;
    law_nat_chains_rebuilt(c, Seq::<Seq<Seq<char>>>::empty(), post);
    law_enabled_targets_masqueraded(c, i);
    law_one_masquerade_per_target(c);
    let pm = |x: Step| is_masquerade_step(x);
    let plan = plan_steps(c);
    let ms = masquerade_step(c, f);
    assert(is_masquerade_step(ms));
    let k = choose|k: int| 0 <= k < plan.len() && #[trigger] plan[k] == ms;
    plan.filter_lemma(pm);
    assert(plan.filter(pm).contains(ms));
    let mf = masquerade_forwards(c, n);
    let m = choose|m: int| 0 <= m < plan.filter(pm).len() && #[trigger] plan.filter(pm)[m] == ms;
    assert(plan.filter(pm)[m] == masquerade_step(c, mf[m]));
    lemma_ipt_words_injective("nat"@, masquerade_words(c, mf[m]), masquerade_words(c, f));
    let mr = masquerade_words(c, f).skip(2);
    assert(masquerade_rules(c)[m] == mr);
    assert(mr =~= seq![
        "-m"@,
        "conntrack"@,
        "--ctstate"@,
        "DNAT"@,
        "-d"@,
        ipv4_text(f.target_ip),
        "-o"@,
        c.tailscale_interface@,
        "-p"@,
        protocol_name(f.protocol),
        "--dport"@,
        decimal(f.target_port as nat),
        "-j"@,
        "MASQUERADE"@,
    ]);
}

} // verus!
