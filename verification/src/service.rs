//! Background services: where their state and logs live, how long they have
//! run, what of a log is shown, and when a supervisor starts them again.

use crate::installed::{sanitize, sanitized};
use crate::manifest::RestartPolicy;
use crate::text::{before, decimal, digits, join, joined, lemma_text_lt_transitive, lines, lines_of, text_lt, texts};
use vstd::prelude::*;

verus! {

/// What is recorded of a service.
#[derive(Debug, PartialEq, Eq)]
pub struct ServiceState {
    pub env: String,
    pub tool: String,
    pub pid: u32,
    pub log: String,
    /// Seconds since the Unix epoch when the service was started.
    pub started_at: u64,
}

/// The path of a service's file with this extension, below the run directory.
pub open spec fn service_file(env: Seq<char>, tool: Seq<char>, ext: Seq<char>) -> Seq<Seq<char>> {
    seq![sanitized(env), sanitized(tool) + ext]
}

fn file_path(env: &str, tool: &str, ext: &str) -> (r: Vec<String>)
    ensures
        texts(r@) == service_file(env@, tool@, ext@),
{
    let mut name = sanitize(tool);
    name.push_str(ext);
    let mut r: Vec<String> = Vec::new();
    r.push(sanitize(env));
    r.push(name);
    assert(texts(r@) =~= service_file(env@, tool@, ext@));
    r
}

impl ServiceState {
    /// The path of a service's state, below the run directory.
    pub fn state_path(env: &str, tool: &str) -> (r: Vec<String>)
        ensures
            texts(r@) == service_file(env@, tool@, ".json"@),
    {
        file_path(env, tool, ".json")
    }

    /// The path of a service's log, below the run directory.
    pub fn log_path(env: &str, tool: &str) -> (r: Vec<String>)
        ensures
            texts(r@) == service_file(env@, tool@, ".log"@),
    {
        file_path(env, tool, ".log")
    }

    /// Seconds since the start, 0 where the clock has gone backwards.
    pub fn uptime_secs(&self, now: u64) -> (r: u64)
        ensures
            r == (if now >= self.started_at {
                now - self.started_at
            } else {
                0
            }),
    {
        if now >= self.started_at {
            now - self.started_at
        } else {
            0
        }
    }
}

impl ServiceState {
    /// The states in the order of their tools' names.
    pub fn all_for_env(states: Vec<ServiceState>) -> (r: Vec<ServiceState>)
        ensures
            by_tool(r@),
            r@.to_multiset() == states@.to_multiset(),
    {
        let ghost given = states@;
        let mut rest = states;
        let mut r: Vec<ServiceState> = Vec::new();
        let ghost all = rest@.to_multiset();
        broadcast use vstd::multiset::group_multiset_axioms;

        assert(rest@.to_multiset().add(r@.to_multiset()) =~= all) by {
            vstd::seq_lib::to_multiset_len(r@);
            assert(r@.to_multiset() =~= vstd::multiset::Multiset::<ServiceState>::empty());
        }
        while rest.len() > 0
            invariant
                by_tool(r@),
                rest@.to_multiset().add(r@.to_multiset()) == all,
                given.to_multiset() == all,
            decreases rest.len(),
        {
            let ghost old_rest = rest@;
            let ghost old_r = r@;
            if let Some(s) = rest.pop() {
                let mut i: usize = 0;
                while i < r.len() && !before(s.tool.as_str(), r[i].tool.as_str())
                    invariant
                        i <= r.len(),
                        r@ == old_r,
                        forall|j: int| 0 <= j < i ==> !text_lt(s.tool@, (#[trigger] r@[j]).tool@),
                    decreases r.len() - i,
                {
                    i = i + 1;
                }
                r.insert(i, s);
                proof {
                    assert forall|a: int, b: int| 0 <= a < b < r@.len() implies !text_lt(
                        #[trigger] r@[b].tool@,
                        #[trigger] r@[a].tool@,
                    ) by {
                        lemma_inserted_in_order(old_r, i as int, s, a, b);
                    }
                    assert(old_rest =~= rest@.push(s));
                    vstd::seq_lib::to_multiset_build(rest@, s);
                    vstd::seq_lib::to_multiset_insert(old_r, i as int, s);
                    assert(rest@.to_multiset().add(r@.to_multiset()) =~= old_rest.to_multiset().add(
                        old_r.to_multiset(),
                    ));
                }
            }
        }
        assert(r@.to_multiset() =~= all) by {
            vstd::seq_lib::to_multiset_len(rest@);
            assert(rest@.to_multiset() =~= vstd::multiset::Multiset::<ServiceState>::empty());
        }
        r
    }
}

/// The states rise by the names of their tools.
pub open spec fn by_tool(s: Seq<ServiceState>) -> bool {
    forall|i: int, j: int|
        0 <= i < j < s.len() ==> !text_lt(#[trigger] s[j].tool@, #[trigger] s[i].tool@)
}

proof fn lemma_inserted_in_order(
    s: Seq<ServiceState>,
    p: int,
    x: ServiceState,
    a: int,
    b: int,
)
    requires
        by_tool(s),
        0 <= p <= s.len(),
        forall|j: int| 0 <= j < p ==> !text_lt(x.tool@, (#[trigger] s[j]).tool@),
        p < s.len() ==> text_lt(x.tool@, s[p].tool@),
        0 <= a < b <= s.len(),
    ensures
        !text_lt(s.insert(p, x)[b].tool@, s.insert(p, x)[a].tool@),
{
    let t = s.insert(p, x);
    if a == p {
        assert(t[b] == s[b - 1]);
        if text_lt(s[b - 1].tool@, x.tool@) {
            lemma_text_lt_transitive(s[b - 1].tool@, x.tool@, s[p].tool@);
            crate::text::lemma_text_lt_irreflexive(s[p].tool@);
            if b - 1 > p {
                assert(!text_lt(s[b - 1].tool@, s[p].tool@));
            }
        }
    } else if b == p {
        assert(t[a] == s[a]);
    } else {
        let i = if a < p { a } else { a - 1 };
        let j = if b < p { b } else { b - 1 };
        assert(t[a] == s[i] && t[b] == s[j]);
        assert(i < j);
    }
}

/// The last `n` items of `s`.
pub open spec fn last_of<T>(s: Seq<T>, n: int) -> Seq<T> {
    if n >= s.len() {
        s
    } else {
        s.skip(s.len() - n)
    }
}

/// The last `n` lines of a log, or all of it.
pub fn tail(content: &str, n: Option<usize>) -> (r: String)
    ensures
        r@ == (match n {
            Some(n) => joined(last_of(lines(content@), n as int), "\n"@),
            None => content@,
        }),
{
    match n {
        None => content.to_owned(),
        Some(n) => {
            let all = lines_of(content);
            let start = if n >= all.len() {
                0
            } else {
                all.len() - n
            };
            let mut last: Vec<String> = Vec::new();
            let mut i: usize = start;
            while i < all.len()
                invariant
                    start <= i <= all.len(),
                    texts(last@) == texts(all@).subrange(start as int, i as int),
                decreases all.len() - i,
            {
                let ghost old_last = texts(last@);
                last.push(all[i].clone());
                assert(texts(last@) =~= old_last.push(all@[i as int]@));
                assert(texts(all@).subrange(start as int, i + 1) =~= texts(all@).subrange(
                    start as int,
                    i as int,
                ).push(all@[i as int]@));
                i = i + 1;
            }
            assert(texts(last@) =~= last_of(lines(content@), n as int));
            join(&last, "\n")
        },
    }
}

/// How long a supervisor first waits before it starts a service again, in
/// milliseconds.
pub const FIRST_DELAY_MS: u64 = 100;

/// How long a supervisor waits at most.
pub const LONGEST_DELAY_MS: u64 = 5000;

/// What a supervisor does when its service has exited.
#[derive(Debug, Clone, Copy, PartialEq, Eq, Structural)]
pub enum Supervision {
    /// Leave it.
    Stop,
    /// Start it again after this many milliseconds.
    Restart { after: u64 },
}

/// The delay before the restart after `n` restarts: it doubles up to the
/// longest.
pub open spec fn delay_after(n: nat) -> int
    decreases n,
{
    if n == 0 {
        FIRST_DELAY_MS as int
    } else if 2 * delay_after((n - 1) as nat) >= LONGEST_DELAY_MS {
        LONGEST_DELAY_MS as int
    } else {
        2 * delay_after((n - 1) as nat)
    }
}

/// Whether a service that exited with this success is started again.
pub open spec fn restarts(policy: RestartPolicy, success: bool) -> bool {
    match policy {
        RestartPolicy::No => false,
        RestartPolicy::OnFailure => !success,
        RestartPolicy::Always => true,
    }
}

/// What the log says where a service is started again.
pub open spec fn restart_text(tool: Seq<char>, status: Seq<char>, after: u64) -> Seq<char> {
    "toolbox: '"@ + tool + "' exited ("@ + status + "); restarting in "@ + digits(after as nat)
        + " ms"@
}

/// What the log says where the service `tool`, which exited with `status`, is
/// started again after `after` milliseconds.
pub fn restart_line(tool: &str, status: &str, after: u64) -> (r: String)
    ensures
        r@ == restart_text(tool@, status@, after),
{
    let mut r = "toolbox: '".to_owned();
    r.push_str(tool);
    r.push_str("' exited (");
    r.push_str(status);
    r.push_str("); restarting in ");
    r.push_str(decimal(after as u128).as_str());
    r.push_str(" ms");
    r
}

/// What to do when a service has exited after `n` restarts.
pub fn on_exit(policy: RestartPolicy, success: bool, n: u64) -> (r: Supervision)
    ensures
        r == (if restarts(policy, success) {
            Supervision::Restart { after: delay_after(n as nat) as u64 }
        } else {
            Supervision::Stop
        }),
        r matches Supervision::Restart { after } ==> FIRST_DELAY_MS <= after <= LONGEST_DELAY_MS,
{
    let again = match policy {
        RestartPolicy::No => false,
        RestartPolicy::OnFailure => !success,
        RestartPolicy::Always => true,
    };
    if !again {
        return Supervision::Stop;
    }
    let mut after: u64 = FIRST_DELAY_MS;
    let mut i: u64 = 0;
    while i < n
        invariant
            i <= n,
            restarts(policy, success),
            after == delay_after(i as nat),
            FIRST_DELAY_MS <= after <= LONGEST_DELAY_MS,
        decreases n - i,
    {
        if after == LONGEST_DELAY_MS {
            proof {
                lemma_delay_stays(i as nat, n as nat);
            }
            return Supervision::Restart { after };
        }
        i = i + 1;
        after = if 2 * after >= LONGEST_DELAY_MS {
            LONGEST_DELAY_MS
        } else {
            2 * after
        };
    }
    Supervision::Restart { after }
}

proof fn lemma_delay_stays(i: nat, n: nat)
    requires
        i <= n,
        delay_after(i) == LONGEST_DELAY_MS,
    ensures
        delay_after(n) == LONGEST_DELAY_MS,
    decreases n - i,
{
    if i < n {
        assert(delay_after(i + 1) == LONGEST_DELAY_MS);
        lemma_delay_stays(i + 1, n);
    }
}

/// A service waits a tenth of a second before it is first started again, twice as
/// long each time after that, and never longer than five seconds.
pub proof fn law_delays_double(n: nat)
    ensures
        delay_after(0) == 100,
        delay_after(n + 1) == (if 2 * delay_after(n) >= 5000 {
            5000
        } else {
            2 * delay_after(n)
        }),
        100 <= delay_after(n) <= 5000,
        delay_after(n) <= delay_after(n + 1),
    decreases n,
{
    if n > 0 {
        law_delays_double((n - 1) as nat);
    }
}

/// A service whose policy is no is never started again, one whose policy is always
/// is, and one on failure exactly where it failed.
pub proof fn law_restart_policies(success: bool)
    ensures
        !restarts(RestartPolicy::No, success),
        restarts(RestartPolicy::Always, success),
        restarts(RestartPolicy::OnFailure, success) == !success,
{
}

/// The end of a log that is shown has as many lines as were asked for, or all of
/// them, and they are the last.
pub proof fn law_last_lines<T>(s: Seq<T>, n: nat)
    ensures
        last_of(s, n as int).is_suffix_of(s),
        last_of(s, n as int).len() == (if n < s.len() {
            n as int
        } else {
            s.len() as int
        }),
{
    let t = last_of(s, n as int);
    assert(t =~= s.subrange(s.len() - t.len(), s.len() as int));
}

/// The state and the log of a service are in a directory of the env, in files of
/// the tool's name, each made safe.
pub proof fn law_service_files(env: Seq<char>, tool: Seq<char>, ext: Seq<char>)
    ensures
        service_file(env, tool, ext) == seq![sanitized(env), sanitized(tool) + ext],
{
}

/// The log tells of a restart which tool exited, how, and how long it waits.
pub proof fn law_restarts_are_told(tool: Seq<char>, status: Seq<char>, after: u64)
    ensures
        restart_text(tool, status, after) == "toolbox: '"@ + tool + "' exited ("@ + status
            + "); restarting in "@ + digits(after as nat) + " ms"@,
{
}

} // verus!
