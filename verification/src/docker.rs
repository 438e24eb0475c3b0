//! The decisions around containers: which container runs a discovery or a
//! task and how, which containers are new, which tasks stay, which images
//! are missing, and how container errors read.
use crate::agent::{TaskDef, TaskSet};
use crate::text::{copy_strings, same_text, starts_with, views};
use std::collections::BTreeSet;
use vstd::prelude::*;

verus! {

/// The working directory of toolchain tasks; files left in it are the
/// task's artifacts. Toolchain images create it.
pub const TOOLCHAIN_WORKDIR: &'static str = "/var/run/curator";

/// The discovery script in toolchain images.
pub const DISCOVER_SCRIPT_PATH: &'static str = "/discover";

/// Errors of container handling.
#[derive(Debug, PartialEq, Eq, Clone)]
pub enum Errors {
    ContainerNonZeroExitCode(i64),
    InvalidContainerId(String),
    UnableToRemoveContainer(String),
    DiscoveryFailed(String),
    InvalidTaskDefJson,
    ImageNotFound,
}

impl Errors {
    /// The text of the error.
    pub fn message(&self) -> (res: String)
        ensures
            res@ == match *self {
                Errors::ContainerNonZeroExitCode(_) => "Container exit code code is non zero"@,
                Errors::InvalidContainerId(id) => "Invalid container id given: "@ + id@,
                Errors::UnableToRemoveContainer(id) => "Unable to remove container: "@ + id@,
                Errors::DiscoveryFailed(id) => "Discovery failed on container: "@ + id@,
                Errors::InvalidTaskDefJson => "Incorrect TaskDef json-payload"@,
                Errors::ImageNotFound => "Docker image not found"@,
            },
    {
        match self {
            Errors::ContainerNonZeroExitCode(_) => "Container exit code code is non zero".to_string(),
            Errors::InvalidContainerId(id) => {
                let mut s = "Invalid container id given: ".to_string();
                s.append(id.as_str());
                s
            },
            Errors::UnableToRemoveContainer(id) => {
                let mut s = "Unable to remove container: ".to_string();
                s.append(id.as_str());
                s
            },
            Errors::DiscoveryFailed(id) => {
                let mut s = "Discovery failed on container: ".to_string();
                s.append(id.as_str());
                s
            },
            Errors::InvalidTaskDefJson => "Incorrect TaskDef json-payload".to_string(),
            Errors::ImageNotFound => "Docker image not found".to_string(),
        }
    }
}

/// How to create a container: its image, its command, the process namespace
/// it joins and its working directory.
pub struct ContainerSpec {
    pub image: String,
    pub cmd: Option<Vec<String>>,
    pub pid_mode: Option<String>,
    pub working_dir: String,
}

/// A container spec for `image` that runs `command` in the toolchain working
/// directory, in the process namespace `pid_mode` where one is given.
pub fn container_spec(image: &str, command: Option<&Vec<String>>, pid_mode: Option<String>) -> (res:
    ContainerSpec)
    ensures
        res.image@ == image@,
        match command {
            Some(c) => res.cmd matches Some(v) && v@ == c@,
            None => res.cmd is None,
        },
        res.pid_mode == pid_mode,
        res.working_dir@ == TOOLCHAIN_WORKDIR@,
{
    let cmd = match command {
        Some(c) => Some(copy_strings(c)),
        None => None,
    };
    ContainerSpec {
        image: image.to_string(),
        cmd,
        pid_mode,
        working_dir: TOOLCHAIN_WORKDIR.to_string(),
    }
}

/// The process namespace of the container `container_id`.
pub fn pid_mode_for(container_id: &str) -> (res: String)
    ensures
        res@ == "container:"@ + container_id@,
{
    let mut s = "container:".to_string();
    s.append(container_id);
    s
}

/// The container that runs discovery with `toolchain_image` on the
/// container `container_id`: the discovery script, in that container's
/// process namespace. An empty container id is an error.
pub fn discovery_container(container_id: &str, toolchain_image: &str) -> (res: Result<
    ContainerSpec,
    Errors,
>)
    ensures
        container_id@.len() == 0 ==> (res matches Err(Errors::InvalidContainerId(id)) && id@
            == container_id@),
        container_id@.len() > 0 ==> (res matches Ok(spec) && {
            &&& spec.image@ == toolchain_image@
            &&& (spec.cmd matches Some(c) && crate::text::views(c@) == seq![DISCOVER_SCRIPT_PATH@])
            &&& (spec.pid_mode matches Some(p) && p@ == "container:"@ + container_id@)
            &&& spec.working_dir@ == TOOLCHAIN_WORKDIR@
        }),
{
    if container_id.unicode_len() == 0 {
        return Err(Errors::InvalidContainerId(container_id.to_string()));
    }
    let mut cmd: Vec<String> = Vec::new();
    cmd.push(DISCOVER_SCRIPT_PATH.to_string());
    assert(crate::text::views(cmd@) =~= seq![DISCOVER_SCRIPT_PATH@]);
    Ok(container_spec(toolchain_image, Some(&cmd), Some(pid_mode_for(container_id))))
}

/// The container that runs a task: the task's command in its toolchain
/// image, in the process namespace of its target container. An empty
/// container id is an error.
pub fn task_container(task: &TaskDef) -> (res: Result<ContainerSpec, Errors>)
    ensures
        task.container_id@.len() == 0 ==> (res matches Err(Errors::InvalidContainerId(id)) && id@
            == task.container_id@),
        task.container_id@.len() > 0 ==> (res matches Ok(spec) && {
            &&& spec.image@ == task.toolchain@
            &&& (spec.cmd matches Some(c) && c@ == task.command@)
            &&& (spec.pid_mode matches Some(p) && p@ == "container:"@ + task.container_id@)
            &&& spec.working_dir@ == TOOLCHAIN_WORKDIR@
        }),
{
    if task.container_id.as_str().unicode_len() == 0 {
        return Err(Errors::InvalidContainerId(task.container_id.clone()));
    }
    Ok(
        container_spec(
            task.toolchain.as_str(),
            Some(&task.command),
            Some(pid_mode_for(task.container_id.as_str())),
        ),
    )
}

/// The status code of a container that has stopped: an error unless it is 0.
pub fn check_exit_status(status_code: i64) -> (res: Result<i64, Errors>)
    ensures
        status_code == 0 ==> res == Ok::<i64, Errors>(0),
        status_code != 0 ==> res == Err::<i64, Errors>(Errors::ContainerNonZeroExitCode(status_code)),
{
    if status_code == 0 {
        Ok(status_code)
    } else {
        Err(Errors::ContainerNonZeroExitCode(status_code))
    }
}

/// A container's status code as a process exit code; `None` where it does
/// not fit in an `i32`.
pub fn exit_code_of(status_code: i64) -> (res: Option<i32>)
    ensures
        i32::MIN <= status_code <= i32::MAX ==> res == Some(status_code as i32),
        !(i32::MIN <= status_code <= i32::MAX) ==> res is None,
{
    if i32::MIN as i64 <= status_code && status_code <= i32::MAX as i64 {
        Some(status_code as i32)
    } else {
        None
    }
}

/// A task as a discovery script describes it, before the container and
/// toolchain are filled in.
pub struct DiscoveredTask {
    pub id: String,
    pub command: Vec<String>,
    pub description: Option<String>,
    pub tags: BTreeSet<String>,
}

/// The task definition for a task that discovery found with `toolchain` in
/// the container `container_id`. The container and toolchain are set here,
/// whatever the script said, so that no script can give others.
pub fn build_task_def(found: DiscoveredTask, container_id: &str, toolchain: &str) -> (res: TaskDef)
    ensures
        res.id == found.id,
        res.command == found.command,
        res.description == found.description,
        res.tags == found.tags,
        res.container_id@ == container_id@,
        res.toolchain@ == toolchain@,
{
    TaskDef {
        id: found.id,
        command: found.command,
        container_id: container_id.to_string(),
        toolchain: toolchain.to_string(),
        description: found.description,
        tags: found.tags,
    }
}

/// Whether `needle` occurs in `hay`.
pub open spec fn contains_text(hay: Seq<char>, needle: Seq<char>) -> bool {
    exists|i: int| 0 <= i && i + needle.len() <= hay.len() && #[trigger] hay.subrange(i, i + needle.len()) == needle
}

/// Whether `needle` occurs in `hay`.
pub fn text_contains(hay: &str, needle: &str) -> (res: bool)
    ensures
        res == contains_text(hay@, needle@),
{
    let n = hay.unicode_len();
    let m = needle.unicode_len();
    if m > n {
        assert forall|i: int| 0 <= i && i + needle@.len() <= hay@.len() implies #[trigger] hay@.subrange(i, i + needle@.len()) != needle@ by {}
        return false;
    }
    let mut i: usize = 0;
    loop
        invariant
            n == hay@.len(),
            m == needle@.len(),
            m <= n,
            i <= n - m,
            forall|k: int| 0 <= k < i ==> #[trigger] hay@.subrange(k, k + m) != needle@,
        decreases n - m - i,
    {
        let window = hay.substring_char(i, i + m);
        if same_text(window, needle) {
            return true;
        }
        if i == n - m {
            return false;
        }
        i = i + 1;
    }
}

/// The text by which Docker says that an image does not exist.
pub const NO_SUCH_IMAGE: &'static str = "No such image";

/// Whether a "not found" answer from Docker is about a missing image.
pub fn is_image_not_found(message: &str) -> (res: bool)
    ensures
        res == contains_text(message@, NO_SUCH_IMAGE@),
{
    text_contains(message, NO_SUCH_IMAGE)
}

/// Whether `s` holds the text `x`.
pub open spec fn has_text(s: Seq<String>, x: Seq<char>) -> bool {
    exists|i: int| 0 <= i < s.len() && (#[trigger] s[i])@ == x
}

/// Whether `x` is among the strings `s`.
pub fn contains_string(s: &Vec<String>, x: &str) -> (res: bool)
    ensures
        res == has_text(s@, x@),
{
    let mut i: usize = 0;
    while i < s.len()
        invariant
            i <= s.len(),
            forall|k: int| 0 <= k < i ==> (#[trigger] s@[k])@ != x@,
        decreases s.len() - i,
    {
        if same_text(s[i].as_str(), x) {
            return true;
        }
        i = i + 1;
    }
    false
}

/// Whether no two strings in `s` hold the same text.
pub open spec fn distinct_texts(s: Seq<String>) -> bool {
    forall|i: int, j: int| 0 <= i < s.len() && 0 <= j < s.len() && i != j ==> s[i]@ != s[j]@
}

/// The strings of `s`, each text once, that are not in `known`, in the order
/// in which they first occur.
pub fn difference(s: &Vec<String>, known: &Vec<String>) -> (res: Vec<String>)
    ensures
        distinct_texts(res@),
        forall|x: Seq<char>| has_text(res@, x) <==> has_text(s@, x) && !has_text(known@, x),
{
    let mut res: Vec<String> = Vec::new();
    let mut i: usize = 0;
    while i < s.len()
        invariant
            i <= s.len(),
            distinct_texts(res@),
            forall|x: Seq<char>|
                has_text(res@, x) <==> has_text(s@.take(i as int), x) && !has_text(known@, x),
        decreases s.len() - i,
    {
        let x = s[i].as_str();
        proof {
            assert forall|y: Seq<char>| has_text(s@.take(i as int + 1), y) <==> has_text(s@.take(i as int), y) || y == x@ by {
                if has_text(s@.take(i as int + 1), y) {
                    let k = choose|k: int| 0 <= k < s@.take(i as int + 1).len() && (#[trigger] s@.take(i as int + 1)[k])@ == y;
                    if k < i {
                        assert(s@.take(i as int)[k] == s@.take(i as int + 1)[k]);
                    }
                }
                if has_text(s@.take(i as int), y) {
                    let k = choose|k: int| 0 <= k < s@.take(i as int).len() && (#[trigger] s@.take(i as int)[k])@ == y;
                    assert(s@.take(i as int)[k] == s@.take(i as int + 1)[k]);
                }
                if y == x@ {
                    assert(s@.take(i as int + 1)[i as int] == s@[i as int]);
                }
            }
        }
        if !contains_string(known, x) && !contains_string(&res, x) {
            let ghost before = res@;
            res.push(s[i].clone());
            proof {
                assert forall|y: Seq<char>| has_text(res@, y) <==> has_text(before, y) || y == x@ by {
                    if has_text(res@, y) {
                        let k = choose|k: int| 0 <= k < res@.len() && (#[trigger] res@[k])@ == y;
                        if k < before.len() {
                            assert(before[k] == res@[k]);
                        }
                    }
                    if has_text(before, y) {
                        let k = choose|k: int| 0 <= k < before.len() && (#[trigger] before[k])@ == y;
                        assert(before[k] == res@[k]);
                    }
                    if y == x@ {
                        assert(res@[before.len() as int]@ == y);
                    }
                }
                assert forall|y: Seq<char>| has_text(res@, y) <==> has_text(s@.take(i as int + 1), y)
                    && !has_text(known@, y) by {
                    assert(has_text(res@, y) <==> has_text(before, y) || y == x@);
                }
                assert forall|a: int, b: int| 0 <= a < res@.len() && 0 <= b < res@.len() && a != b implies res@[a]@ != res@[b]@ by {
                    if a == before.len() as int {
                        assert(res@[b] == before[b]);
                    } else if b == before.len() as int {
                        assert(res@[a] == before[a]);
                    } else {
                        assert(res@[a] == before[a] && res@[b] == before[b]);
                    }
                }
            }
        } else {
            assert forall|y: Seq<char>| has_text(res@, y) <==> has_text(s@.take(i as int + 1), y)
                && !has_text(known@, y) by {
                if y == x@ && has_text(s@.take(i as int + 1), y) && !has_text(known@, y) {
                    assert(has_text(res@, y));
                }
            }
        }
        i = i + 1;
    }
    assert(s@.take(s.len() as int) =~= s@);
    res
}

/// The containers among those running now that were not running before.
pub fn new_containers(alive: &Vec<String>, known: &Vec<String>) -> (res: Vec<String>)
    ensures
        distinct_texts(res@),
        forall|x: Seq<char>| has_text(res@, x) <==> has_text(alive@, x) && !has_text(known@, x),
{
    difference(alive, known)
}

/// The toolchain images, each once, that are not among the images present.
pub fn missing_images(toolchains: &Vec<String>, present: &Vec<String>) -> (res: Vec<String>)
    ensures
        distinct_texts(res@),
        forall|x: Seq<char>|
            has_text(res@, x) <==> has_text(toolchains@, x) && !has_text(present@, x),
{
    difference(toolchains, present)
}

/// The discoveries to run: every toolchain on every container, container
/// by container.
pub fn discovery_jobs(containers: &Vec<String>, toolchains: &Vec<String>) -> (res: Vec<
    (String, String),
>)
    ensures
        res.len() == containers.len() * toolchains.len(),
        forall|c: int, t: int|
            0 <= c < containers.len() && 0 <= t < toolchains.len() ==> {
                &&& (#[trigger] res@[c * toolchains.len() + t]).0 == containers@[c]
                &&& res@[c * toolchains.len() + t].1 == toolchains@[t]
            },
{
    let mut res: Vec<(String, String)> = Vec::new();
    let mut c: usize = 0;
    while c < containers.len()
        invariant
            c <= containers.len(),
            res.len() == c * toolchains.len(),
            forall|a: int, t: int|
                0 <= a < c && 0 <= t < toolchains.len() ==> {
                    &&& (#[trigger] res@[a * toolchains.len() + t]).0 == containers@[a]
                    &&& res@[a * toolchains.len() + t].1 == toolchains@[t]
                },
        decreases containers.len() - c,
    {
        let mut t: usize = 0;
        let ghost base = res@;
        while t < toolchains.len()
            invariant
                c < containers.len(),
                t <= toolchains.len(),
                base.len() == c * toolchains.len(),
                res.len() == c * toolchains.len() + t,
                forall|k: int| 0 <= k < base.len() ==> res@[k] == base[k],
                forall|u: int|
                    0 <= u < t ==> {
                        &&& (#[trigger] res@[c * toolchains.len() + u]).0 == containers@[c as int]
                        &&& res@[c * toolchains.len() + u].1 == toolchains@[u]
                    },
            decreases toolchains.len() - t,
        {
            proof {
                assert(c * toolchains.len() + t <= (c + 1) * toolchains.len()) by (nonlinear_arith)
                    requires t < toolchains.len();
            }
            res.push((containers[c].clone(), toolchains[t].clone()));
            t = t + 1;
        }
        proof {
            assert((c + 1) * toolchains.len() == c * toolchains.len() + toolchains.len()) by (nonlinear_arith);
            assert forall|a: int, u: int|
                0 <= a < c + 1 && 0 <= u < toolchains.len() implies {
                    &&& (#[trigger] res@[a * toolchains.len() + u]).0 == containers@[a]
                    &&& res@[a * toolchains.len() + u].1 == toolchains@[u]
                } by {
                if a < c {
                    assert(a * toolchains.len() + u < c * toolchains.len()) by (nonlinear_arith)
                        requires a < c, u < toolchains.len(), a >= 0;
                    assert(res@[a * toolchains.len() + u] == base[a * toolchains.len() + u]);
                } else {
                    assert(a == c);
                }
            }
        }
        c = c + 1;
    }
    res
}

/// The tasks that stay after a discovery round: the tasks known before and
/// the new ones, without those whose container is no longer running.
pub open spec fn tasks_after_round(tasks: Seq<TaskDef>, alive: Seq<String>) -> Seq<TaskDef> {
    tasks.filter(|t: TaskDef| has_text(alive, t.container_id@))
}

/// After a round, every task's container is running, and every task, old or
/// new, whose container is running is still there.
pub proof fn lemma_round_keeps_running_only(tasks: Seq<TaskDef>, alive: Seq<String>)
    ensures
        forall|j: int|
            0 <= j < tasks_after_round(tasks, alive).len() ==> has_text(
                alive,
                (#[trigger] tasks_after_round(tasks, alive)[j]).container_id@,
            ),
        forall|i: int|
            0 <= i < tasks.len() && has_text(alive, tasks[i].container_id@) ==> tasks_after_round(
                tasks,
                alive,
            ).contains(#[trigger] tasks[i]),
{
    let pred = |t: TaskDef| has_text(alive, t.container_id@);
    assert forall|j: int|
        0 <= j < tasks_after_round(tasks, alive).len() implies has_text(
        alive,
        (#[trigger] tasks_after_round(tasks, alive)[j]).container_id@,
    ) by {
        tasks.lemma_filter_pred(pred, j);
    }
    assert forall|i: int|
        0 <= i < tasks.len() && has_text(alive, tasks[i].container_id@) implies tasks_after_round(
        tasks,
        alive,
    ).contains(#[trigger] tasks[i]) by {
        tasks.lemma_filter_contains(pred, i);
    }
}

/// Tasks whose containers are all running are all kept.
proof fn lemma_running_tasks_kept(found: Seq<TaskDef>, alive: Seq<String>)
    requires
        forall|i: int| 0 <= i < found.len() ==> has_text(alive, (#[trigger] found[i]).container_id@),
    ensures
        tasks_after_round(found, alive) == found,
    decreases found.len(),
{
    if found.len() > 0 {
        let init = found.drop_last();
        assert forall|i: int| 0 <= i < init.len() implies has_text(
            alive,
            (#[trigger] init[i]).container_id@,
        ) by {
            assert(init[i] == found[i]);
        }
        lemma_running_tasks_kept(init, alive);
        assert(init.push(found.last()) =~= found);
        init.lemma_filter_push(found.last(), |t: TaskDef| has_text(alive, t.container_id@));
        assert(has_text(alive, found[found.len() - 1].container_id@));
    } else {
        reveal_with_fuel(Seq::<TaskDef>::filter, 1);
    }
}

/// A discovery round keeps, in order, the tasks known before whose
/// containers still run, followed by every task found in the containers
/// that started since the last round (which run).
pub proof fn lemma_round_keeps_known_then_found(
    known: Seq<TaskDef>,
    found: Seq<TaskDef>,
    alive: Seq<String>,
)
    requires
        forall|i: int| 0 <= i < found.len() ==> has_text(alive, (#[trigger] found[i]).container_id@),
    ensures
        tasks_after_round(known + found, alive) == tasks_after_round(known, alive) + found,
{
    Seq::filter_distributes_over_add(known, found, |t: TaskDef| has_text(alive, t.container_id@));
    lemma_running_tasks_kept(found, alive);
}

/// A round in which discovery ran on the containers that started since the
/// last one (each still running, as `newborn` gives them) and found tasks
/// on them (their container ids set by `build_task_def`): the known tasks on
/// running containers stay, in order, followed by every task found.
pub proof fn lemma_round_after_discovery(
    known: Seq<TaskDef>,
    found: Seq<TaskDef>,
    alive: Seq<String>,
    newborn: Seq<String>,
)
    requires
        forall|x: Seq<char>| has_text(newborn, x) ==> has_text(alive, x),
        forall|i: int| 0 <= i < found.len() ==> has_text(newborn, (#[trigger] found[i]).container_id@),
    ensures
        tasks_after_round(known + found, alive) == tasks_after_round(known, alive) + found,
        forall|j: int|
            0 <= j < tasks_after_round(known + found, alive).len() ==> has_text(
                alive,
                (#[trigger] tasks_after_round(known + found, alive)[j]).container_id@,
            ),
{
    assert forall|i: int| 0 <= i < found.len() implies has_text(
        alive,
        (#[trigger] found[i]).container_id@,
    ) by {
        assert(has_text(newborn, found[i].container_id@));
    }
    lemma_round_keeps_known_then_found(known, found, alive);
    lemma_round_keeps_running_only(known + found, alive);
}

/// What the discovery loop keeps between rounds: the containers running at
/// the last round and the tasks found in them.
pub struct DiscoveryState {
    pub containers: Vec<String>,
    pub tasks: TaskSet,
}

impl DiscoveryState {
    /// Before the first round: no containers, no tasks.
    pub fn new() -> (res: Self)
        ensures
            res.containers@ == Seq::<String>::empty(),
            res.tasks@ == Seq::<TaskDef>::empty(),
    {
        DiscoveryState { containers: Vec::new(), tasks: Vec::new() }
    }

    /// The containers running now that were not at the last round: those
    /// that discovery has to run on.
    pub fn newborn(&self, alive: &Vec<String>) -> (res: Vec<String>)
        ensures
            distinct_texts(res@),
            forall|x: Seq<char>|
                has_text(res@, x) <==> has_text(alive@, x) && !has_text(self.containers@, x),
    {
        new_containers(alive, &self.containers)
    }

    /// Ends a round: adds the tasks found in the new containers, drops the
    /// tasks of containers no longer running, and remembers the running
    /// containers.
    pub fn finish_round(&mut self, alive: Vec<String>, new_tasks: TaskSet)
        ensures
            final(self).tasks@ == tasks_after_round(old(self).tasks@ + new_tasks@, alive@),
            final(self).containers@ == alive@,
    {
        let ghost all = old(self).tasks@ + new_tasks@;
        let mut pool: Vec<TaskDef> = Vec::new();
        std::mem::swap(&mut pool, &mut self.tasks);
        let mut incoming = new_tasks;
        pool.append(&mut incoming);
        assert(pool@ =~= all);
        let mut kept: Vec<TaskDef> = Vec::new();
        let n = pool.len();
        let mut i: usize = 0;
        while i < n
            invariant
                n == all.len(),
                i <= n,
                pool@ == all.skip(i as int),
                kept@ == all.take(i as int).filter(|t: TaskDef| has_text(alive@, t.container_id@)),
            decreases n - i,
        {
            let t = pool.remove(0);
            assert(pool@ =~= all.skip(i as int + 1));
            assert(all.take(i as int + 1).drop_last() =~= all.take(i as int));
            reveal_with_fuel(Seq::<TaskDef>::filter, 1);
            if contains_string(&alive, t.container_id.as_str()) {
                kept.push(t);
            }
            i = i + 1;
        }
        assert(all.take(n as int) =~= all);
        self.tasks = kept;
        self.containers = alive;
    }
}

} // verus!
