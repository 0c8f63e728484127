//! Containers for services and isolated jobs.
use vstd::prelude::*;

use crate::letters;
use crate::letters::char_is_alphanumeric;
use crate::models::ServiceConfig;
use crate::string_map::{StringMap, Table};
use crate::text;
use crate::text::{append_str, split_str, starts_with_str, to_chars, trim_str};

verus! {

// ---------------------------------------------------------------------------
// Names

/// A character that can stand in the name of a container; others become `_`.
pub open spec fn name_char(c: char) -> char {
    if letters::alphanumeric(c) || c == '-' || c == '_' {
        c
    } else {
        '_'
    }
}

/// Text as the name of a container.
pub open spec fn safe_word(s: Seq<char>) -> Seq<char> {
    Seq::new(s.len(), |i: int| name_char(s[i]))
}

/// Text as the name of a container.
pub fn sanitize_name(name: &str) -> (r: String)
    ensures
        r@ == safe_word(name@),
{
    let v = to_chars(name);
    let mut s = String::new();
    let mut i: usize = 0;
    while i < v.len()
        invariant
            v@ == name@,
            i <= v@.len(),
            s@.len() == i,
            forall|k: int| 0 <= k < i ==> #[trigger] s@[k] == name_char(name@[k]),
        decreases v@.len() - i,
    {
        let c = v[i];
        if char_is_alphanumeric(c) || c == '-' || c == '_' {
            s.push(c);
        } else {
            s.push('_');
        }
        i = i + 1;
    }
    assert(s@ =~= safe_word(name@));
    s
}

/// The name of an image without its registry and its tag.
pub open spec fn image_base(image: Seq<char>) -> Seq<char> {
    text::split(text::split(image, '/').last(), ':')[0]
}

/// The name under which a service is reached.
pub open spec fn service_name(image: Seq<char>) -> Seq<char> {
    safe_word(image_base(image))
}

/// The name under which a service is reached.
pub fn sanitize_service_name(_job_name: &str, image: &str) -> (r: String)
    ensures
        r@ == service_name(image@),
{
    let parts = split_str(image, '/');
    let last = &parts[parts.len() - 1];
    assert(last@ == text::split(image@, '/').last());
    let pieces = split_str(last.as_str(), ':');
    assert(pieces@[0]@ == text::split(last@, ':')[0]);
    sanitize_name(pieces[0].as_str())
}

/// The network of a job.
pub open spec fn network_name(job: Seq<char>) -> Seq<char> {
    "ci-net-"@ + safe_word(job)
}

/// The network of a job.
pub fn network_name_str(job_name: &str) -> (r: String)
    ensures
        r@ == network_name(job_name@),
{
    let mut s = "ci-net-".to_owned();
    append_str(&mut s, sanitize_name(job_name).as_str());
    s
}

/// The container of a service.
pub open spec fn container_name(job: Seq<char>, service: Seq<char>) -> Seq<char> {
    "ci-"@ + safe_word(job) + "-"@ + service
}

/// The container of a service.
pub fn container_name_str(job_name: &str, service: &str) -> (r: String)
    ensures
        r@ == container_name(job_name@, service@),
{
    let mut s = "ci-".to_owned();
    append_str(&mut s, sanitize_name(job_name).as_str());
    append_str(&mut s, "-");
    append_str(&mut s, service);
    s
}

/// The container in which the steps of a job run.
pub open spec fn job_container_name(job: Seq<char>) -> Seq<char> {
    "ci-job-"@ + safe_word(job)
}

/// The container in which the steps of a job run.
pub fn job_container_name_str(job_name: &str) -> (r: String)
    ensures
        r@ == job_container_name(job_name@),
{
    let mut s = "ci-job-".to_owned();
    append_str(&mut s, sanitize_name(job_name).as_str());
    s
}

// ---------------------------------------------------------------------------
// Commands

/// The arguments that set environment variables.
pub open spec fn env_args(env: Table<Seq<char>>, n: int) -> Seq<Seq<char>>
    decreases n,
{
    if n <= 0 {
        Seq::empty()
    } else {
        env_args(env, n - 1).push("-e"@).push(
            env.order[n - 1] + "="@ + env.map[env.order[n - 1]],
        )
    }
}

fn push_arg(args: &mut Vec<String>, arg: String)
    ensures
        final(args).deep_view() == old(args).deep_view().push(arg@),
{
    let ghost before = args.deep_view();
    args.push(arg);
    assert(args.deep_view() =~= before.push(arg@));
}

fn push_env_args(args: &mut Vec<String>, env: &StringMap<String>)
    ensures
        final(args).deep_view() == old(args).deep_view() + env_args(
            env.deep_view(),
            env.deep_view().order.len() as int,
        ),
{
    let ghost start = args.deep_view();
    let ghost table = env.deep_view();
    let n: usize = env.len();
    let mut i: usize = 0;
    assert(start + env_args(table, 0) =~= start);
    while i < n
        invariant
            table == env.deep_view(),
            n == table.order.len(),
            i <= n,
            args.deep_view() == start + env_args(table, i as int),
        decreases n - i,
    {
        let mut pair = env.key_at(i).clone();
        append_str(&mut pair, "=");
        append_str(&mut pair, env.value_at(i).as_str());
        push_arg(args, "-e".to_owned());
        push_arg(args, pair);
        assert(args.deep_view() =~= start + env_args(table, i + 1));
        i = i + 1;
    }
}

/// The arguments that start the container of a service.
pub open spec fn service_args(job: Seq<char>, image: Seq<char>, env: Table<Seq<char>>) -> Seq<Seq<char>> {
    let name = service_name(image);
    seq![
        "run"@,
        "-d"@,
        "--name"@,
        container_name(job, name),
        "--network"@,
        network_name(job),
        "--network-alias"@,
        name,
    ] + env_args(env, env.order.len() as int) + seq![image]
}

/// The arguments that start the container of a service.
pub fn service_args_of(job_name: &str, service: &ServiceConfig) -> (r: Vec<String>)
    ensures
        r.deep_view() == service_args(job_name@, service.image@, service.env.deep_view()),
{
    let name = sanitize_service_name(job_name, service.image.as_str());
    let mut args: Vec<String> = Vec::new();
    push_arg(&mut args, "run".to_owned());
    push_arg(&mut args, "-d".to_owned());
    push_arg(&mut args, "--name".to_owned());
    push_arg(&mut args, container_name_str(job_name, name.as_str()));
    push_arg(&mut args, "--network".to_owned());
    push_arg(&mut args, network_name_str(job_name));
    push_arg(&mut args, "--network-alias".to_owned());
    push_arg(&mut args, name);
    push_env_args(&mut args, &service.env);
    push_arg(&mut args, service.image.clone());
    assert(args.deep_view() =~= service_args(job_name@, service.image@, service.env.deep_view()));
    args
}

/// The arguments that start the container in which the steps of a job run.
pub open spec fn job_container_args(
    job: Seq<char>,
    image: Seq<char>,
    workspace: Seq<char>,
    env: Table<Seq<char>>,
) -> Seq<Seq<char>> {
    seq![
        "run"@,
        "-d"@,
        "-t"@,
        "--name"@,
        job_container_name(job),
        "--network"@,
        network_name(job),
        "-v"@,
        workspace + ":/workspace"@,
        "-w"@,
        "/workspace"@,
        "--entrypoint"@,
        "sleep"@,
    ] + env_args(env, env.order.len() as int) + seq![image, "infinity"@]
}

/// The arguments that start the container in which the steps of a job run.
pub fn job_container_args_of(
    job_name: &str,
    image: &str,
    workspace: &str,
    env: &StringMap<String>,
) -> (r: Vec<String>)
    ensures
        r.deep_view() == job_container_args(job_name@, image@, workspace@, env.deep_view()),
{
    let mut args: Vec<String> = Vec::new();
    push_arg(&mut args, "run".to_owned());
    push_arg(&mut args, "-d".to_owned());
    push_arg(&mut args, "-t".to_owned());
    push_arg(&mut args, "--name".to_owned());
    push_arg(&mut args, job_container_name_str(job_name));
    push_arg(&mut args, "--network".to_owned());
    push_arg(&mut args, network_name_str(job_name));
    push_arg(&mut args, "-v".to_owned());
    let mut mount = workspace.to_owned();
    append_str(&mut mount, ":/workspace");
    push_arg(&mut args, mount);
    push_arg(&mut args, "-w".to_owned());
    push_arg(&mut args, "/workspace".to_owned());
    push_arg(&mut args, "--entrypoint".to_owned());
    push_arg(&mut args, "sleep".to_owned());
    push_env_args(&mut args, env);
    push_arg(&mut args, image.to_owned());
    push_arg(&mut args, "infinity".to_owned());
    assert(args.deep_view() =~= job_container_args(job_name@, image@, workspace@, env.deep_view()));
    args
}

/// The arguments that run a command in a container.
pub open spec fn exec_args(container: Seq<char>, command: Seq<char>, env: Table<Seq<char>>) -> Seq<Seq<char>> {
    seq!["exec"@] + env_args(env, env.order.len() as int) + seq![container, "sh"@, "-c"@, command]
}

/// The arguments that stop a container, giving it some seconds.
pub open spec fn stop_args(container: Seq<char>, grace: Seq<char>) -> Seq<Seq<char>> {
    seq!["stop"@, "-t"@, grace, container]
}

/// The arguments that stop a container, giving it some seconds.
pub fn stop_args_of(container: &str, grace: &str) -> (r: Vec<String>)
    ensures
        r.deep_view() == stop_args(container@, grace@),
{
    let mut args: Vec<String> = Vec::new();
    push_arg(&mut args, "stop".to_owned());
    push_arg(&mut args, "-t".to_owned());
    push_arg(&mut args, grace.to_owned());
    push_arg(&mut args, container.to_owned());
    assert(args.deep_view() =~= stop_args(container@, grace@));
    args
}

/// The arguments that remove a container.
pub fn remove_args_of(container: &str) -> (r: Vec<String>)
    ensures
        r.deep_view() == seq!["rm"@, "-f"@, container@],
{
    let mut args: Vec<String> = Vec::new();
    push_arg(&mut args, "rm".to_owned());
    push_arg(&mut args, "-f".to_owned());
    push_arg(&mut args, container.to_owned());
    assert(args.deep_view() =~= seq!["rm"@, "-f"@, container@]);
    args
}

/// The arguments of a command on a network.
pub fn network_args_of(verb: &str, network: &str) -> (r: Vec<String>)
    ensures
        r.deep_view() == seq!["network"@, verb@, network@],
{
    let mut args: Vec<String> = Vec::new();
    push_arg(&mut args, "network".to_owned());
    push_arg(&mut args, verb.to_owned());
    push_arg(&mut args, network.to_owned());
    assert(args.deep_view() =~= seq!["network"@, verb@, network@]);
    args
}

/// The identifier that a command printed, or the name if it printed none.
pub open spec fn printed_id(stdout: Seq<char>, name: Seq<char>) -> Seq<char> {
    if text::trim(stdout).len() == 0 {
        name
    } else {
        text::trim(stdout)
    }
}

/// The identifier that a command printed, or the name if it printed none.
pub fn printed_id_of(stdout: &str, name: &str) -> (r: String)
    ensures
        r@ == printed_id(stdout@, name@),
{
    let id = trim_str(stdout);
    if id.as_str().is_empty() {
        name.to_owned()
    } else {
        id
    }
}

// ---------------------------------------------------------------------------
// The manager

/// Why a container or a network could not be had.
#[derive(Debug, Clone)]
pub enum ServiceError {
    /// There is no Docker.
    NoDocker,
    /// The network could not be created.
    Network { name: String, stderr: String },
    /// The container of a service could not be started.
    Service { image: String, stderr: String },
    /// The container of a job could not be started.
    JobContainer { job: String, stderr: String },
    /// The container of a job was not started.
    NotStarted { job: String },
}

impl ServiceError {
    /// The text of the error.
    pub fn message(&self) -> (r: String)
        ensures
            r@ == match *self {
                ServiceError::NoDocker => "Docker not available for container isolation"@,
                ServiceError::Network { name, stderr } => "Failed to create network "@ + name@
                    + ": "@ + stderr@,
                ServiceError::Service { image, stderr } => "Failed to start service container "@
                    + image@ + ": "@ + stderr@,
                ServiceError::JobContainer { job, stderr } => "Failed to start job container "@
                    + job@ + ": "@ + stderr@,
                ServiceError::NotStarted { job } => "Job container not started for "@ + job@,
            },
    {
        match self {
            ServiceError::NoDocker => "Docker not available for container isolation".to_owned(),
            ServiceError::Network { name, stderr } => {
                let mut s = "Failed to create network ".to_owned();
                append_str(&mut s, name.as_str());
                append_str(&mut s, ": ");
                append_str(&mut s, stderr.as_str());
                s
            },
            ServiceError::Service { image, stderr } => {
                let mut s = "Failed to start service container ".to_owned();
                append_str(&mut s, image.as_str());
                append_str(&mut s, ": ");
                append_str(&mut s, stderr.as_str());
                s
            },
            ServiceError::JobContainer { job, stderr } => {
                let mut s = "Failed to start job container ".to_owned();
                append_str(&mut s, job.as_str());
                append_str(&mut s, ": ");
                append_str(&mut s, stderr.as_str());
                s
            },
            ServiceError::NotStarted { job } => {
                let mut s = "Job container not started for ".to_owned();
                append_str(&mut s, job.as_str());
                s
            },
        }
    }
}

/// What a command brought.
#[derive(Debug, Clone)]
pub struct CommandOutput {
    pub success: bool,
    pub stdout: String,
    pub stderr: String,
}

/// What is to be stopped for a job: the containers of its services, its own
/// container, its network.
#[derive(Debug, Clone)]
pub struct StopPlan {
    pub services: Vec<String>,
    pub job_containers: Vec<String>,
    pub networks: Vec<String>,
}

/// The containers and networks that are running.
#[derive(Debug)]
pub struct ServiceManager {
    containers: StringMap<String>,
    networks: StringMap<String>,
    job_containers: StringMap<String>,
    enabled: bool,
}

/// The containers and networks that are running.
#[verifier::ext_equal]
pub struct ServicesModel {
    pub containers: Table<Seq<char>>,
    pub networks: Table<Seq<char>>,
    pub job_containers: Table<Seq<char>>,
    pub enabled: bool,
}

/// The texts that begin with `p`.
pub open spec fn beginning_with(p: Seq<char>) -> spec_fn(Seq<char>) -> bool {
    |k: Seq<char>| text::starts_with(k, p)
}

impl ServicesModel {
    /// The keys of the containers of a job's services.
    pub open spec fn service_keys(self, job: Seq<char>) -> Seq<Seq<char>> {
        self.containers.order.filter(beginning_with(job + "-"@))
    }

    /// Nothing is running.
    pub open spec fn nothing(enabled: bool) -> ServicesModel {
        ServicesModel {
            containers: Table::empty(),
            networks: Table::empty(),
            job_containers: Table::empty(),
            enabled,
        }
    }
}

/// What an optional text holds, as a list.
pub open spec fn as_list(o: Option<Seq<char>>) -> Seq<Seq<char>> {
    match o {
        Some(x) => seq![x],
        None => Seq::empty(),
    }
}

impl ServiceManager {
    /// The containers and networks that are running.
    pub closed spec fn model(self) -> ServicesModel {
        ServicesModel {
            containers: self.containers.deep_view(),
            networks: self.networks.deep_view(),
            job_containers: self.job_containers.deep_view(),
            enabled: self.enabled,
        }
    }

    /// A manager for which nothing is running yet.
    pub fn new() -> (r: ServiceManager)
        ensures
            r.model() == ServicesModel::nothing(true),
    {
        ServiceManager {
            containers: StringMap::new(),
            networks: StringMap::new(),
            job_containers: StringMap::new(),
            enabled: true,
        }
    }

    /// Whether containers can be had, as far as is known.
    pub fn is_enabled(&self) -> (r: bool)
        ensures
            r == self.model().enabled,
    {
        self.enabled
    }

    /// Takes note of whether Docker answered. Once it did not, no containers
    /// can be had any more.
    pub fn check_docker(&mut self, answered: bool)
        ensures
            final(self).model() == (ServicesModel {
                enabled: old(self).model().enabled && answered,
                ..old(self).model()
            }),
    {
        if !answered {
            self.enabled = false;
        }
    }

    /// Refuses to isolate jobs where containers cannot be had.
    pub fn require_docker(&self) -> (r: Result<(), ServiceError>)
        ensures
            match r {
                Ok(_) => self.model().enabled,
                Err(e) => !self.model().enabled && e is NoDocker,
            },
    {
        if self.enabled {
            Ok(())
        } else {
            Err(ServiceError::NoDocker)
        }
    }

    /// The network of a job, if it is there already.
    pub fn existing_network(&self, job_name: &str) -> (r: Option<String>)
        ensures
            r.deep_view() == self.model().networks.get(safe_word(job_name@)),
    {
        match self.networks.get(sanitize_name(job_name).as_str()) {
            Some(id) => Some(id.clone()),
            None => None,
        }
    }

    /// Takes note of what the command brought that creates the network of a
    /// job, and returns the network's identifier.
    pub fn ensure_network(&mut self, job_name: &str, out: &CommandOutput) -> (r: Result<String, ServiceError>)
        ensures
            match r {
                Ok(id) => {
                    &&& out.success
                    &&& id@ == printed_id(out.stdout@, network_name(job_name@))
                    &&& final(self).model() == (ServicesModel {
                        networks: old(self).model().networks.insert(safe_word(job_name@), id@),
                        ..old(self).model()
                    })
                },
                Err(e) => {
                    &&& !out.success
                    &&& final(self).model() == old(self).model()
                    &&& e matches ServiceError::Network { name, stderr } && name@ == network_name(
                        job_name@,
                    ) && stderr@ == out.stderr@
                },
            },
    {
        let name = network_name_str(job_name);
        if !out.success {
            return Err(ServiceError::Network { name, stderr: out.stderr.clone() });
        }
        let id = printed_id_of(out.stdout.as_str(), name.as_str());
        self.networks.insert(sanitize_name(job_name), id.clone());
        Ok(id)
    }

    /// Takes note of what the command brought that starts the container of a
    /// service, and returns the name under which the service is reached.
    pub fn start_service(&mut self, job_name: &str, service: &ServiceConfig, out: &CommandOutput) -> (r: Result<
        String,
        ServiceError,
    >)
        ensures
            match r {
                Ok(name) => {
                    &&& out.success
                    &&& name@ == service_name(service.image@)
                    &&& final(self).model() == (ServicesModel {
                        containers: old(self).model().containers.insert(
                            job_name@ + "-"@ + name@,
                            printed_id(out.stdout@, container_name(job_name@, name@)),
                        ),
                        ..old(self).model()
                    })
                },
                Err(e) => {
                    &&& !out.success
                    &&& final(self).model() == old(self).model()
                    &&& e matches ServiceError::Service { image, stderr } && image@ == service.image@
                        && stderr@ == out.stderr@
                },
            },
    {
        if !out.success {
            return Err(
                ServiceError::Service { image: service.image.clone(), stderr: out.stderr.clone() },
            );
        }
        let name = sanitize_service_name(job_name, service.image.as_str());
        let container = container_name_str(job_name, name.as_str());
        let id = printed_id_of(out.stdout.as_str(), container.as_str());
        let mut key = job_name.to_owned();
        append_str(&mut key, "-");
        append_str(&mut key, name.as_str());
        self.containers.insert(key, id);
        Ok(name)
    }

    /// Takes note of what the command brought that starts the container in
    /// which the steps of a job run, and returns the container's identifier.
    pub fn start_job_container(&mut self, job_name: &str, out: &CommandOutput) -> (r: Result<
        String,
        ServiceError,
    >)
        ensures
            match r {
                Ok(id) => {
                    &&& out.success
                    &&& id@ == printed_id(out.stdout@, job_container_name(job_name@))
                    &&& final(self).model() == (ServicesModel {
                        job_containers: old(self).model().job_containers.insert(job_name@, id@),
                        ..old(self).model()
                    })
                },
                Err(e) => {
                    &&& !out.success
                    &&& final(self).model() == old(self).model()
                    &&& e matches ServiceError::JobContainer { job, stderr } && job@ == job_name@
                        && stderr@ == out.stderr@
                },
            },
    {
        if !out.success {
            return Err(
                ServiceError::JobContainer { job: job_name.to_owned(), stderr: out.stderr.clone() },
            );
        }
        let name = job_container_name_str(job_name);
        let id = printed_id_of(out.stdout.as_str(), name.as_str());
        self.job_containers.insert(job_name.to_owned(), id.clone());
        Ok(id)
    }

    /// The arguments that run a command in the container of a job.
    pub fn exec_in_job_container(&self, job_name: &str, cmd: &str, env: &StringMap<String>) -> (r: Result<
        Vec<String>,
        ServiceError,
    >)
        ensures
            match (r, self.model().job_containers.get(job_name@)) {
                (Ok(args), Some(id)) => args.deep_view() == exec_args(id, cmd@, env.deep_view()),
                (Err(ServiceError::NotStarted { job }), None) => job@ == job_name@,
                _ => false,
            },
    {
        match self.job_containers.get(job_name) {
            Some(id) => {
                let mut args: Vec<String> = Vec::new();
                push_arg(&mut args, "exec".to_owned());
                push_env_args(&mut args, env);
                push_arg(&mut args, id.clone());
                push_arg(&mut args, "sh".to_owned());
                push_arg(&mut args, "-c".to_owned());
                push_arg(&mut args, cmd.to_owned());
                assert(args.deep_view() =~= exec_args(id@, cmd@, env.deep_view()));
                Ok(args)
            },
            None => Err(ServiceError::NotStarted { job: job_name.to_owned() }),
        }
    }

    /// Forgets the container of a job and returns its identifier, to stop it.
    pub fn stop_job_container(&mut self, job_name: &str) -> (r: Option<String>)
        ensures
            r.deep_view() == old(self).model().job_containers.get(job_name@),
            final(self).model() == (ServicesModel {
                job_containers: old(self).model().job_containers.remove(job_name@),
                ..old(self).model()
            }),
    {
        self.job_containers.remove(job_name)
    }

    /// Forgets everything that runs for a job and returns what is to be
    /// stopped.
    pub fn stop_job_services(&mut self, job_name: &str) -> (r: StopPlan)
        ensures
            ({
                let m = old(self).model();
                let keys = m.service_keys(job_name@);
                &&& r.services.deep_view() == Seq::new(keys.len(), |i: int| m.containers.map[keys[i]])
                &&& r.job_containers.deep_view() == as_list(m.job_containers.get(job_name@))
                &&& r.networks.deep_view() == as_list(m.networks.get(safe_word(job_name@)))
                &&& final(self).model() == (ServicesModel {
                    containers: m.containers.remove_all(keys),
                    networks: m.networks.remove(safe_word(job_name@)),
                    job_containers: m.job_containers.remove(job_name@),
                    enabled: m.enabled,
                })
            }),
    {
        let ghost before = self.containers.deep_view();
        let mut prefix = job_name.to_owned();
        append_str(&mut prefix, "-");
        let ghost pred = beginning_with(prefix@);
        let ghost want = before.order.filter(pred);
        let n: usize = self.containers.len();
        let mut keys: Vec<String> = Vec::new();
        let mut i: usize = 0;
        assert(before.order.take(0) =~= Seq::<Seq<char>>::empty());
        assert(keys.deep_view() =~= before.order.take(0).filter(pred)) by {
            reveal(Seq::filter);
        }
        while i < n
            invariant
                before == self.containers.deep_view(),
                n == before.order.len(),
                pred == beginning_with(prefix@),
                i <= n,
                keys.deep_view() == before.order.take(i as int).filter(pred),
            decreases n - i,
        {
            let ghost now = keys.deep_view();
            let key = self.containers.key_at(i);
            assert(before.order.take(i + 1).drop_last() =~= before.order.take(i as int));
            if starts_with_str(key.as_str(), prefix.as_str()) {
                keys.push(key.clone());
                assert(keys.deep_view() =~= now.push(key@));
            }
            assert(keys.deep_view() == before.order.take(i + 1).filter(pred)) by {
                reveal(Seq::filter);
            }
            i = i + 1;
        }
        assert(before.order.take(n as int) =~= before.order);
        let mut services: Vec<String> = Vec::new();
        let mut k: usize = 0;
        proof {
            lemma_filter_distinct(before.order, pred);
        }
        while k < keys.len()
            invariant
                want == keys.deep_view(),
                want.no_duplicates(),
                forall|j: int|
                    0 <= j < want.len() ==> before.map.contains_key(#[trigger] want[j]),
                k <= keys@.len(),
                self.containers.deep_view() == before.remove_first(want, k as int),
                self.networks == old(self).networks,
                self.job_containers == old(self).job_containers,
                self.enabled == old(self).enabled,
                services@.len() == k,
                forall|j: int| 0 <= j < k ==> (#[trigger] services@[j])@ == before.map[want[j]],
            decreases keys@.len() - k,
        {
            assert(want[k as int] == keys@[k as int]@);
            proof {
                before.lemma_remove_first_get(want, k as int, want[k as int]);
            }
            match self.containers.remove(keys[k].as_str()) {
                Some(id) => {
                    services.push(id);
                },
                None => {
                    services.push(String::new());
                },
            }
            k = k + 1;
        }
        assert(services.deep_view() =~= Seq::new(want.len(), |i: int| before.map[want[i]]));
        let mut job_containers: Vec<String> = Vec::new();
        if let Some(id) = self.stop_job_container(job_name) {
            job_containers.push(id);
        }
        assert(job_containers.deep_view() =~= as_list(
            old(self).model().job_containers.get(job_name@),
        ));
        let mut networks: Vec<String> = Vec::new();
        if let Some(id) = self.networks.remove(sanitize_name(job_name).as_str()) {
            networks.push(id);
        }
        assert(networks.deep_view() =~= as_list(
            old(self).model().networks.get(safe_word(job_name@)),
        ));
        StopPlan { services, job_containers, networks }
    }

    /// Forgets everything that runs and returns what is to be stopped.
    pub fn stop_all(&mut self) -> (r: StopPlan)
        ensures
            r.services.deep_view() == old(self).model().containers.values(),
            r.job_containers.deep_view() == old(self).model().job_containers.values(),
            r.networks.deep_view() == old(self).model().networks.values(),
            final(self).model() == ServicesModel::nothing(old(self).model().enabled),
    {
        let services = values_of(&self.containers);
        let job_containers = values_of(&self.job_containers);
        let networks = values_of(&self.networks);
        self.containers = StringMap::new();
        self.job_containers = StringMap::new();
        self.networks = StringMap::new();
        StopPlan { services, job_containers, networks }
    }
}

fn values_of(map: &StringMap<String>) -> (r: Vec<String>)
    ensures
        r.deep_view() == map.deep_view().values(),
{
    let ghost table = map.deep_view();
    let n: usize = map.len();
    let mut out: Vec<String> = Vec::new();
    let mut i: usize = 0;
    while i < n
        invariant
            table == map.deep_view(),
            n == table.order.len(),
            i <= n,
            out@.len() == i,
            forall|k: int| 0 <= k < i ==> (#[trigger] out@[k])@ == table.map[table.order[k]],
        decreases n - i,
    {
        out.push(map.value_at(i).clone());
        i = i + 1;
    }
    assert(out.deep_view() =~= table.values());
    out
}

proof fn lemma_filter_distinct(s: Seq<Seq<char>>, pred: spec_fn(Seq<char>) -> bool)
    requires
        s.no_duplicates(),
    ensures
        s.filter(pred).no_duplicates(),
        forall|i: int| 0 <= i < s.filter(pred).len() ==> s.contains(#[trigger] s.filter(pred)[i]),
    decreases s.len(),
{
    reveal(Seq::filter);
    if s.len() > 0 {
        let d = s.drop_last();
        lemma_filter_distinct(d, pred);
        let f = d.filter(pred);
        let g = s.filter(pred);
        assert forall|i: int| 0 <= i < g.len() implies s.contains(#[trigger] g[i]) by {
            if i < f.len() {
                assert(d.contains(f[i]));
                let j = d.index_of(f[i]);
                assert(s[j] == f[i]);
            } else {
                assert(s[s.len() - 1] == g[i]);
            }
        }
        assert forall|i: int, j: int| 0 <= i < j < g.len() implies g[i] != g[j] by {
            if j == f.len() {
                assert(d.contains(f[i]));
                let k = d.index_of(f[i]);
                assert(s[k] == f[i]);
                assert(s[s.len() - 1] == g[j]);
            }
        }
    }
}

// ---------------------------------------------------------------------------
// Laws

/// Text in the form of a container name stays as it is.
pub proof fn lemma_safe_word_twice(s: Seq<char>)
    ensures
        safe_word(safe_word(s)) == safe_word(s),
{
    assert(safe_word(safe_word(s)) =~= safe_word(s));
}

/// Once a job's services are stopped, none of its containers are known.
pub proof fn lemma_stopped_services_gone(m: ServicesModel, job: Seq<char>, key: Seq<char>)
    requires
        m.containers.wf(),
        text::starts_with(key, job + "-"@),
    ensures
        m.containers.remove_all(m.service_keys(job)).get(key) is None,
{
    let keys = m.service_keys(job);
    let pred = beginning_with(job + "-"@);
    m.containers.lemma_remove_first_get(keys, keys.len() as int, key);
    if m.containers.map.contains_key(key) {
        let i = m.containers.order.index_of(key);
        assert(pred(m.containers.order[i]));
        m.containers.order.lemma_filter_contains(pred, i);
        assert(keys.contains(key));
        let k = keys.index_of(key);
        assert(keys[k] == key);
    }
}

/// A safe word has the letters, digits, dashes and underscores of the text, and
/// an underscore for everything else.
pub proof fn lemma_safe_word_keeps(s: Seq<char>, i: int)
    requires
        0 <= i < s.len(),
    ensures
        safe_word(s).len() == s.len(),
        letters::alphanumeric(s[i]) || s[i] == '-' || s[i] == '_' ==> safe_word(s)[i] == s[i],
        !letters::alphanumeric(s[i]) && s[i] != '-' ==> safe_word(s)[i] == '_',
{
}

/// A service is named behind its image, without the registry before it and the
/// tag behind it.
pub proof fn lemma_image_base(registry: Seq<char>, name: Seq<char>, tag: Seq<char>)
    requires
        !name.contains('/'),
        !name.contains(':'),
        !tag.contains('/'),
        !tag.contains(':'),
        !registry.contains('/'),
    ensures
        image_base(name) == name,
        image_base(name + ":"@ + tag) == name,
        image_base(registry + "/"@ + name) == name,
        image_base(registry + "/"@ + name + ":"@ + tag) == name,
{
    reveal_strlit("/");
    reveal_strlit(":");
    let full = name + seq![':'] + tag;
    assert(name + ":"@ + tag =~= full);
    assert(!full.contains('/')) by {
        if full.contains('/') {
            let k = full.index_of('/');
            if k < name.len() {
                assert(name.contains(name[k]));
            } else if k > name.len() {
                assert(tag.contains(tag[k - name.len() - 1]));
            }
        }
    }
    text::lemma_split_one(name, '/');
    text::lemma_split_one(name, ':');
    text::lemma_split_one(full, '/');
    text::lemma_split_two(name, ':', tag);
    text::lemma_split_two(registry, '/', name);
    text::lemma_split_two(registry, '/', full);
    assert(registry + "/"@ + name =~= registry + seq!['/'] + name);
    assert(registry + "/"@ + name + ":"@ + tag =~= registry + seq!['/'] + full);
    assert(seq![name].last() == name);
    assert(seq![full].last() == full);
    assert(seq![registry, name].last() == name);
    assert(seq![registry, full].last() == full);
}

/// Every variable is handed to a container, one behind the other, as `-e` and
/// its name and value.
pub proof fn lemma_env_args(env: Table<Seq<char>>, n: int, i: int)
    requires
        0 <= i < n <= env.order.len(),
    ensures
        env_args(env, n).len() == 2 * n,
        env_args(env, n)[2 * i] == "-e"@,
        env_args(env, n)[2 * i + 1] == env.order[i] + "="@ + env.map[env.order[i]],
    decreases n,
{
    lemma_env_args_len(env, n - 1);
    if i < n - 1 {
        lemma_env_args(env, n - 1, i);
    }
}

proof fn lemma_env_args_len(env: Table<Seq<char>>, n: int)
    requires
        0 <= n,
    ensures
        env_args(env, n).len() == 2 * n,
    decreases n,
{
    if n > 0 {
        lemma_env_args_len(env, n - 1);
    }
}

/// A service runs its image in the network of its job, under a name and an
/// alias of its own, with all of its variables.
pub proof fn lemma_service_args(job: Seq<char>, image: Seq<char>, env: Table<Seq<char>>, i: int)
    requires
        0 <= i < env.order.len(),
    ensures
        ({
            let args = service_args(job, image, env);
            &&& args[0] == "run"@
            &&& args.last() == image
            &&& args[3] == "ci-"@ + safe_word(job) + "-"@ + service_name(image)
            &&& args[5] == "ci-net-"@ + safe_word(job)
            &&& args[7] == service_name(image)
            &&& args.len() == 9 + 2 * env.order.len()
            &&& args[8 + 2 * i] == "-e"@
            &&& args[9 + 2 * i] == env.order[i] + "="@ + env.map[env.order[i]]
        }),
{
    lemma_env_args(env, env.order.len() as int, i);
}

/// The container of a job joins the network of its services, works in the
/// workspace, and has all of its variables.
pub proof fn lemma_job_container_args(
    job: Seq<char>,
    image: Seq<char>,
    workspace: Seq<char>,
    env: Table<Seq<char>>,
    i: int,
)
    requires
        0 <= i < env.order.len(),
    ensures
        ({
            let args = job_container_args(job, image, workspace, env);
            &&& args[0] == "run"@
            &&& args[4] == "ci-job-"@ + safe_word(job)
            &&& args[6] == "ci-net-"@ + safe_word(job)
            &&& args[8] == workspace + ":/workspace"@
            &&& args[10] == "/workspace"@
            &&& args[args.len() - 2] == image
            &&& args.last() == "infinity"@
            &&& args[13 + 2 * i] == "-e"@
            &&& args[14 + 2 * i] == env.order[i] + "="@ + env.map[env.order[i]]
        }),
{
    lemma_env_args(env, env.order.len() as int, i);
}

/// A command runs in a container as the last argument of its shell, with all of
/// its variables before the container.
pub proof fn lemma_exec_args(container: Seq<char>, command: Seq<char>, env: Table<Seq<char>>, i: int)
    requires
        0 <= i < env.order.len(),
    ensures
        ({
            let args = exec_args(container, command, env);
            &&& args[0] == "exec"@
            &&& args.last() == command
            &&& args[args.len() - 4] == container
            &&& args[1 + 2 * i] == "-e"@
            &&& args[2 + 2 * i] == env.order[i] + "="@ + env.map[env.order[i]]
        }),
{
    lemma_env_args(env, env.order.len() as int, i);
}

/// A container is known by what was printed when it started, without white
/// space around it, or by its name if nothing was.
pub proof fn lemma_printed_id(id: Seq<char>, space: Seq<char>, name: Seq<char>)
    requires
        id.len() > 0,
        !text::is_space(id[0]),
        !text::is_space(id.last()),
        forall|i: int| 0 <= i < space.len() ==> text::is_space(#[trigger] space[i]),
    ensures
        printed_id(id + space, name) == id,
        printed_id(space, name) == name,
{
    let none = Seq::<char>::empty();
    text::lemma_trim_between(none, id, space);
    assert(none + id + space =~= id + space);
    text::lemma_trim_between(space, none, none);
    assert(space + none + none =~= space);
}

/// Stopping the services of a job stops those of no job whose keys begin
/// otherwise.
pub proof fn lemma_other_services_stay(m: ServicesModel, job: Seq<char>, key: Seq<char>)
    requires
        !text::starts_with(key, job + "-"@),
    ensures
        m.containers.remove_all(m.service_keys(job)).get(key) == m.containers.get(key),
{
    let keys = m.service_keys(job);
    let pred = beginning_with(job + "-"@);
    m.containers.lemma_remove_first_get(keys, keys.len() as int, key);
    m.containers.order.filter_lemma(pred);
    assert forall|i: int| 0 <= i < keys.len() implies #[trigger] keys[i] != key by {
        assert(pred(keys[i]));
    }
}

/// The keys of a job's services are exactly those that begin with the job's
/// name and a dash.
pub proof fn lemma_service_keys(m: ServicesModel, job: Seq<char>, key: Seq<char>)
    ensures
        m.service_keys(job).contains(key) <==> m.containers.order.contains(key) && text::starts_with(
            key,
            job + "-"@,
        ),
{
    let keys = m.service_keys(job);
    let pred = beginning_with(job + "-"@);
    m.containers.order.filter_lemma(pred);
    if keys.contains(key) {
        let i = keys.index_of(key);
        assert(pred(keys[i]));
        m.containers.order.lemma_filter_contains_rev(pred, key);
    }
    if m.containers.order.contains(key) && pred(key) {
        let i = m.containers.order.index_of(key);
        assert(keys.contains(m.containers.order[i]));
    }
}

/// At first there is nothing, and a container is stopped by its name, with the
/// time that it is given.
pub proof fn lemma_stopping(container: Seq<char>, grace: Seq<char>, enabled: bool, key: Seq<char>)
    ensures
        stop_args(container, grace) == seq!["stop"@, "-t"@, grace, container],
        ServicesModel::nothing(enabled).containers.get(key) is None,
        ServicesModel::nothing(enabled).networks.get(key) is None,
        ServicesModel::nothing(enabled).job_containers.get(key) is None,
        ServicesModel::nothing(enabled).enabled == enabled,
{
}

} // verus!
