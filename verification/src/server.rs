use vstd::prelude::*;
use vstd::string::StringExecFns;

verus! {

/// The reply to a request for a process's state when none is open.
pub const NO_PROCESS_OPEN: &'static str = "No process open. Please open process with /process/open. List with /processes. ";

/// The reply to a request that needs an open process when none is open.
pub const NO_PROCESS_OPEN_PID: &'static str = "No process open. Please open process with /process/open/<pid>. List with /processes. ";

/// The reply to a request to open a process while one is open.
pub const ALREADY_OPEN: &'static str = "A process is already open. Please close process with /process/close";

/// The name that marks that no process is open.
pub const NO_PROCESS_NAME: &'static str = "None";

/// The greeting of the server's root page.
pub fn index() -> (greeting: &'static str)
    ensures
        greeting@ == "Hello World"@,
{
    "Hello World"
}

/// The process that the server has open: its name, id and handle. The
/// name "None" marks that no process is open.
#[derive(Debug, Clone)]
pub struct CurrentProcess {
    pub name: String,
    pub pid: u32,
    pub handle: isize,
}

/// A server state as plain values: name, id and handle.
pub type ProcessView = (Seq<char>, u32, isize);

/// The state in which no process is open.
pub open spec fn closed_view() -> ProcessView {
    (NO_PROCESS_NAME@, 0, 0)
}

/// Whether a process is open in a state.
pub open spec fn is_open_view(v: ProcessView) -> bool {
    v.0 != NO_PROCESS_NAME@
}

/// Opening process `pid`, whose handle is `handle` and whose name is
/// `name`: the next state and the reply.
pub open spec fn open_step(v: ProcessView, pid: u32, handle: isize, name: Seq<char>) -> (
    ProcessView,
    Result<Seq<char>, Seq<char>>,
) {
    if is_open_view(v) {
        (v, Err(ALREADY_OPEN@))
    } else {
        ((name, pid, handle), Ok(name))
    }
}

/// The reply to a request for the state.
pub open spec fn state_reply(v: ProcessView) -> Result<Seq<char>, Seq<char>> {
    if is_open_view(v) {
        Ok(v.0 + " is currently open"@)
    } else {
        Err(NO_PROCESS_OPEN@)
    }
}

/// Closing the open process: the next state and the reply, which carries
/// the handle to close.
pub open spec fn close_step(v: ProcessView) -> (ProcessView, Result<(isize, Seq<char>), Seq<char>>) {
    if is_open_view(v) {
        (closed_view(), Ok((v.2, "Closed process "@ + v.0)))
    } else {
        (v, Err(NO_PROCESS_OPEN_PID@))
    }
}

/// The reply to a request for the modules: the handle whose modules to
/// list.
pub open spec fn modules_reply(v: ProcessView) -> Result<isize, Seq<char>> {
    if is_open_view(v) {
        Ok(v.2)
    } else {
        Err(NO_PROCESS_OPEN_PID@)
    }
}

/// The view of a reply that carries text.
pub open spec fn text_reply(r: Result<String, String>) -> Result<Seq<char>, Seq<char>> {
    match r {
        Ok(s) => Ok(s@),
        Err(e) => Err(e@),
    }
}

impl CurrentProcess {
    /// The state as plain values.
    pub open spec fn view(&self) -> ProcessView {
        (self.name@, self.pid, self.handle)
    }

    /// The state in which the server starts: no process open.
    pub fn new() -> (s: Self)
        ensures
            s.view() == closed_view(),
    {
        CurrentProcess { name: String::from_str(NO_PROCESS_NAME), pid: 0, handle: 0 }
    }

    /// Whether a process is open.
    pub fn is_open(&self) -> (r: bool)
        ensures
            r == is_open_view(self.view()),
    {
        let none = String::from_str(NO_PROCESS_NAME);
        !(self.name == none)
    }

    /// Whether a request to open a process may go ahead: refused while a
    /// process is open.
    pub fn open_pid_allowed(&self) -> (r: Result<(), String>)
        ensures
            match r {
                Ok(()) => !is_open_view(self.view()),
                Err(e) => is_open_view(self.view()) && e@ == ALREADY_OPEN@,
            },
    {
        if self.is_open() {
            Err(String::from_str(ALREADY_OPEN))
        } else {
            Ok(())
        }
    }

    /// Records the opening of process `pid`, whose handle is `handle` and
    /// whose name is `name`, and answers with the name; refused, with the
    /// state unchanged, while a process is open. An opened handle is never
    /// null.
    pub fn open_pid(&mut self, pid: u32, handle: isize, name: String) -> (reply: Result<
        String,
        String,
    >)
        requires
            handle != 0,
        ensures
            (final(self).view(), text_reply(reply)) == open_step(old(self).view(), pid, handle, name@),
    {
        if self.is_open() {
            return Err(String::from_str(ALREADY_OPEN));
        }
        let reply = name.clone();
        self.name = name;
        self.pid = pid;
        self.handle = handle;
        Ok(reply)
    }

    /// Answers a request for the state: the open process's name, or that
    /// none is open.
    pub fn curr_state(&self) -> (reply: Result<String, String>)
        ensures
            text_reply(reply) == state_reply(self.view()),
    {
        if self.is_open() {
            let mut msg = self.name.clone();
            msg.append(" is currently open");
            Ok(msg)
        } else {
            Err(String::from_str(NO_PROCESS_OPEN))
        }
    }

    /// Closes the open process: the state returns to the start and the
    /// reply carries the handle to close and the message; refused, with the
    /// state unchanged, when none is open.
    pub fn close_pid(&mut self) -> (reply: Result<(isize, String), String>)
        ensures
            (final(self).view(), match reply {
                Ok((h, msg)) => Ok((h, msg@)),
                Err(e) => Err(e@),
            }) == close_step(old(self).view()),
    {
        if !self.is_open() {
            return Err(String::from_str(NO_PROCESS_OPEN_PID));
        }
        let name = self.name.clone();
        let handle = self.handle;
        let msg = String::from_str("Closed process ").concat(name.as_str());
        self.name = String::from_str(NO_PROCESS_NAME);
        self.pid = 0;
        self.handle = 0;
        Ok((handle, msg))
    }

    /// Answers a request for the modules: the handle of the open process
    /// whose modules to list, or that none is open.
    pub fn get_modules(&self) -> (reply: Result<isize, String>)
        ensures
            match reply {
                Ok(h) => modules_reply(self.view()) == Ok::<isize, Seq<char>>(h),
                Err(e) => modules_reply(self.view()) == Err::<isize, Seq<char>>(e@),
            },
    {
        if self.is_open() {
            Ok(self.handle)
        } else {
            Err(String::from_str(NO_PROCESS_OPEN_PID))
        }
    }
}

/// The server starts with no process open.
pub proof fn lemma_starts_closed()
    ensures
        !is_open_view(closed_view()),
        state_reply(closed_view()) == Err::<Seq<char>, Seq<char>>(NO_PROCESS_OPEN@),
        modules_reply(closed_view()) == Err::<isize, Seq<char>>(NO_PROCESS_OPEN_PID@),
{
}

/// After a process is opened, the state names it and the modules request
/// goes to its handle (unless the process is itself named "None", the
/// mark of the closed state).
pub proof fn lemma_open_then_state(v: ProcessView, pid: u32, handle: isize, name: Seq<char>)
    requires
        !is_open_view(v),
        name != NO_PROCESS_NAME@,
    ensures
        open_step(v, pid, handle, name).1 == Ok::<Seq<char>, Seq<char>>(name),
        is_open_view(open_step(v, pid, handle, name).0),
        state_reply(open_step(v, pid, handle, name).0) == Ok::<Seq<char>, Seq<char>>(
            name + " is currently open"@,
        ),
        modules_reply(open_step(v, pid, handle, name).0) == Ok::<isize, Seq<char>>(handle),
{
}

/// Closing what was just opened hands back the opened handle and brings
/// the server back to its starting state.
pub proof fn lemma_open_then_close(v: ProcessView, pid: u32, handle: isize, name: Seq<char>)
    requires
        !is_open_view(v),
        name != NO_PROCESS_NAME@,
    ensures
        close_step(open_step(v, pid, handle, name).0) == (
            closed_view(),
            Ok::<(isize, Seq<char>), Seq<char>>((handle, "Closed process "@ + name)),
        ),
{
}

/// A refused request changes nothing: opening while a process is open,
/// closing while none is.
pub proof fn lemma_refused_requests_keep_state(
    v: ProcessView,
    pid: u32,
    handle: isize,
    name: Seq<char>,
)
    ensures
        is_open_view(v) ==> open_step(v, pid, handle, name) == (
            v,
            Err::<Seq<char>, Seq<char>>(ALREADY_OPEN@),
        ),
        !is_open_view(v) ==> close_step(v) == (
            v,
            Err::<(isize, Seq<char>), Seq<char>>(NO_PROCESS_OPEN_PID@),
        ),
{
}

/// A state is consistent when the name marks it closed exactly when the
/// handle is null, and a closed state has pid 0.
pub open spec fn consistent_view(v: ProcessView) -> bool {
    &&& (v.0 == NO_PROCESS_NAME@) == (v.2 == 0)
    &&& v.0 == NO_PROCESS_NAME@ ==> v.1 == 0
}

/// Every state the server reaches is consistent: the start state is, and
/// every request keeps it so, given that an opened process has a non-null
/// handle and is not itself named "None".
pub proof fn lemma_reachable_states_consistent(
    v: ProcessView,
    pid: u32,
    handle: isize,
    name: Seq<char>,
)
    requires
        consistent_view(v),
        handle != 0,
        name != NO_PROCESS_NAME@,
    ensures
        consistent_view(closed_view()),
        consistent_view(open_step(v, pid, handle, name).0),
        consistent_view(close_step(v).0),
        is_open_view(v) ==> modules_reply(v) == Ok::<isize, Seq<char>>(v.2) && v.2 != 0,
{
}

} // verus!
