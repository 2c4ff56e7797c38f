//! The service descriptor a listing displays: built from a probed
//! `RunitService` and its decoded status, with the text of every displayed
//! column pinned down. Colouring and column layout are left to the caller.

use vstd::prelude::*;
use crate::runit::RunitService;
use crate::status::{RunitServiceState, RunitStatus};
use crate::strutil::{dec_str, relative_duration, relative_duration_spec, u64_to_string};

verus! {

/// Displayed states of a service.
#[derive(Clone, Copy, Debug, PartialEq, Eq, Structural)]
pub enum ServiceState {
    Run,
    Down,
    Finish,
    Unknown,
}

/// The displayed state for a decoded supervisor state.
pub open spec fn state_of_runit(s: RunitServiceState) -> ServiceState {
    match s {
        RunitServiceState::Run => ServiceState::Run,
        RunitServiceState::Down => ServiceState::Down,
        RunitServiceState::Finish => ServiceState::Finish,
        RunitServiceState::Unknown => ServiceState::Unknown,
    }
}

/// The single character a state shows as.
pub open spec fn state_char_spec(s: ServiceState) -> Seq<char> {
    match s {
        ServiceState::Run => "✔"@,
        ServiceState::Down => "X"@,
        ServiceState::Finish => "X"@,
        ServiceState::Unknown => "?"@,
    }
}

/// The word a state shows as.
pub open spec fn state_label_spec(s: ServiceState) -> Seq<char> {
    match s {
        ServiceState::Run => "run"@,
        ServiceState::Down => "down"@,
        ServiceState::Finish => "finish"@,
        ServiceState::Unknown => "n/a"@,
    }
}

impl ServiceState {
    /// A suitable single character for the state.
    pub fn get_char(&self) -> (r: String)
        ensures
            r@ == state_char_spec(*self),
    {
        match self {
            ServiceState::Run => String::from_str("✔"),
            ServiceState::Down => String::from_str("X"),
            ServiceState::Finish => String::from_str("X"),
            ServiceState::Unknown => String::from_str("?"),
        }
    }

    /// The word the state displays as.
    pub fn label(&self) -> (r: String)
        ensures
            r@ == state_label_spec(*self),
    {
        match self {
            ServiceState::Run => String::from_str("run"),
            ServiceState::Down => String::from_str("down"),
            ServiceState::Finish => String::from_str("finish"),
            ServiceState::Unknown => String::from_str("n/a"),
        }
    }
}

/// The status character for a state together with its want flag and
/// paused flag: pauses and pending direction changes override the plain
/// state mark.
pub open spec fn status_char_spec(s: ServiceState, want: char, paused: bool) -> Seq<char> {
    match s {
        ServiceState::Run => if paused {
            "⏸"@
        } else if want == 'd' {
            "▼"@
        } else {
            "✔"@
        },
        ServiceState::Down => if want == 'u' {
            "X"@
        } else {
            "■"@
        },
        ServiceState::Finish => if paused {
            "⏸"@
        } else if want == 'd' {
            "▼"@
        } else {
            "▽"@
        },
        ServiceState::Unknown => "?"@,
    }
}

fn status_char_of(s: ServiceState, want: char, paused: bool) -> (r: String)
    ensures
        r@ == status_char_spec(s, want, paused),
{
    match s {
        ServiceState::Run => {
            if paused {
                String::from_str("⏸")
            } else if want == 'd' {
                String::from_str("▼")
            } else {
                String::from_str("✔")
            }
        },
        ServiceState::Down => {
            if want == 'u' {
                String::from_str("X")
            } else {
                String::from_str("■")
            }
        },
        ServiceState::Finish => {
            if paused {
                String::from_str("⏸")
            } else if want == 'd' {
                String::from_str("▼")
            } else {
                String::from_str("▽")
            }
        },
        ServiceState::Unknown => String::from_str("?"),
    }
}

/// What a `Service` holds, at the specification level.
pub ghost struct ServiceV {
    pub name: Seq<char>,
    pub state: ServiceState,
    pub enabled: bool,
    pub command: Option<Seq<char>>,
    pub pid: Option<u32>,
    pub start_time: Option<u64>,
    pub pstree: Option<Seq<char>>,
    pub want: char,
    pub paused: bool,
    pub log_status: Option<(RunitStatus, bool)>,
    pub print_log_column: bool,
}

/// An abstract service descriptor: everything a status line displays,
/// created fresh per listing and never cached.
#[derive(Debug)]
pub struct Service {
    pub name: String,
    pub state: ServiceState,
    pub enabled: bool,
    /// Command line of the running process, when the caller resolved one.
    pub command: Option<String>,
    pub pid: Option<u32>,
    /// Seconds since the epoch at which the service started.
    pub start_time: Option<u64>,
    /// Rendered process tree, when one was asked for.
    pub pstree: Option<String>,
    pub want: char,
    pub paused: bool,
    /// Decoded status of the log sub-service and whether it is enabled.
    pub log_status: Option<(RunitStatus, bool)>,
    pub print_log_column: bool,
}

impl View for Service {
    type V = ServiceV;

    open spec fn view(&self) -> ServiceV {
        ServiceV {
            name: self.name@,
            state: self.state,
            enabled: self.enabled,
            command: match self.command {
                Some(c) => Some(c@),
                None => None,
            },
            pid: self.pid,
            start_time: self.start_time,
            pstree: match self.pstree {
                Some(t) => Some(t@),
                None => None,
            },
            want: self.want,
            paused: self.paused,
            log_status: self.log_status,
            print_log_column: self.print_log_column,
        }
    }
}

impl Service {
    /// Build the descriptor for one service from what the caller probed
    /// and decoded: a decoded status fills state, pid, timing, want and
    /// paused; a missing one (unreadable or undecodable record) degrades
    /// the state to `Unknown` with a default want of up, never an error.
    pub fn from_runit_service(
        service: &RunitService,
        status: Option<RunitStatus>,
        log_status: Option<RunitStatus>,
        log_enabled: bool,
        command: Option<String>,
        pstree: Option<String>,
        want_log_status: bool,
    ) -> (svc: Service)
        ensures
            svc@.name == service@.name,
            svc@.enabled == !service@.down_marker,
            match status {
                Some(st) => svc@.state == state_of_runit(st.state) && svc@.pid == st.pid
                    && svc@.start_time == st.start_time && svc@.want == st.want && svc@.paused
                    == st.paused,
                None => svc@.state == ServiceState::Unknown && svc@.pid is None
                    && svc@.start_time is None && svc@.want == 'u' && !svc@.paused,
            },
            svc@.command == match command {
                Some(c) => Some(c@),
                None => None::<Seq<char>>,
            },
            svc@.pstree == match pstree {
                Some(t) => Some(t@),
                None => None::<Seq<char>>,
            },
            svc@.log_status == match log_status {
                Some(st) => Some((st, log_enabled)),
                None => None::<(RunitStatus, bool)>,
            },
            svc@.print_log_column == want_log_status,
    {
        let name = service.name.clone();
        let enabled = service.enabled();
        let (state, pid, start_time, want, paused) = match status {
            Some(st) => {
                let state = match st.state {
                    RunitServiceState::Run => ServiceState::Run,
                    RunitServiceState::Down => ServiceState::Down,
                    RunitServiceState::Finish => ServiceState::Finish,
                    RunitServiceState::Unknown => ServiceState::Unknown,
                };
                (state, st.pid, st.start_time, st.want, st.paused)
            },
            None => (ServiceState::Unknown, None, None, 'u', false),
        };
        let log_pair = match log_status {
            Some(st) => Some((st, log_enabled)),
            None => None,
        };
        Service {
            name,
            state,
            enabled,
            command,
            pid,
            start_time,
            pstree,
            want,
            paused,
            log_status: log_pair,
            print_log_column: want_log_status,
        }
    }

    /// The service's name column.
    pub fn format_name(&self) -> (r: String)
        ensures
            r@ == self@.name,
    {
        self.name.clone()
    }

    /// The one-character status column.
    pub fn format_status_char(&self) -> (r: String)
        ensures
            r@ == status_char_spec(self@.state, self@.want, self@.paused),
    {
        status_char_of(self.state, self.want, self.paused)
    }

    /// The status character for a decoded status record; used for the log
    /// sub-service column.
    pub fn get_runit_status_char(&self, status: &RunitStatus) -> (r: String)
        ensures
            r@ == status_char_spec(state_of_runit(status.state), status.want, status.paused),
    {
        let state = match status.state {
            RunitServiceState::Run => ServiceState::Run,
            RunitServiceState::Down => ServiceState::Down,
            RunitServiceState::Finish => ServiceState::Finish,
            RunitServiceState::Unknown => ServiceState::Unknown,
        };
        status_char_of(state, status.want, status.paused)
    }

    /// The log column: empty when not asked for, a dash when the log
    /// sub-service has no decoded status, else its status character with a
    /// disabled marker appended when it is disabled.
    pub fn format_log(&self) -> (r: String)
        ensures
            r@ == ({
                if !self@.print_log_column {
                    ""@
                } else {
                    match self@.log_status {
                        Some((st, enabled)) => status_char_spec(
                            state_of_runit(st.state),
                            st.want,
                            st.paused,
                        ) + if !enabled {
                            " -"@
                        } else {
                            Seq::<char>::empty()
                        },
                        None => "-"@,
                    }
                }
            }),
    {
        if !self.print_log_column {
            let r = String::new();
            proof {
                reveal_strlit("");
                assert(""@ =~= Seq::<char>::empty());
            }
            return r;
        }
        match &self.log_status {
            Some(pair) => {
                let st = pair.0;
                let enabled = pair.1;
                let mut icon = self.get_runit_status_char(&st);
                if !enabled {
                    icon.append(" -");
                } else {
                    proof {
                        assert(icon@ =~= icon@ + Seq::<char>::empty());
                    }
                }
                icon
            },
            None => String::from_str("-"),
        }
    }

    /// The state column's text.
    pub fn format_state(&self) -> (r: String)
        ensures
            r@ == state_label_spec(self@.state),
    {
        self.state.label()
    }

    /// The enabled column: "true" or "false".
    pub fn format_enabled(&self) -> (r: String)
        ensures
            r@ == if self@.enabled {
                "true"@
            } else {
                "false"@
            },
    {
        if self.enabled {
            String::from_str("true")
        } else {
            String::from_str("false")
        }
    }

    /// The pid column: the pid in decimal, or dashes when there is none.
    pub fn format_pid(&self) -> (r: String)
        ensures
            r@ == match self@.pid {
                Some(p) => dec_str(p as int),
                None => "---"@,
            },
    {
        match self.pid {
            Some(p) => u64_to_string(p as u64),
            None => String::from_str("---"),
        }
    }

    /// The command column: the command line, or dashes when none was
    /// resolved.
    pub fn format_command(&self) -> (r: String)
        ensures
            r@ == match self@.command {
                Some(c) => c,
                None => "---"@,
            },
    {
        match &self.command {
            Some(c) => c.clone(),
            None => String::from_str("---"),
        }
    }

    /// The time column: how long ago the service started, phrased like
    /// "5 minutes", given the current time in seconds since the epoch;
    /// "n/a" when the start time is absent or lies in the future.
    pub fn format_time(&self, now_secs: u64) -> (r: String)
        ensures
            r@ == match self@.start_time {
                Some(st) => if now_secs >= st {
                    relative_duration_spec((now_secs - st) as u64)
                } else {
                    "n/a"@
                },
                None => "n/a"@,
            },
    {
        match self.start_time {
            Some(st) => {
                if now_secs >= st {
                    relative_duration(now_secs - st)
                } else {
                    String::from_str("n/a")
                }
            },
            None => String::from_str("n/a"),
        }
    }

    /// The tree block: the rendered tree framed by blank lines, or empty
    /// when none was asked for.
    pub fn format_pstree(&self) -> (r: String)
        ensures
            r@ == match self@.pstree {
                Some(t) => seq!['\n'] + t + seq!['\n'],
                None => Seq::<char>::empty(),
            },
    {
        match &self.pstree {
            Some(t) => {
                let mut s = String::from_str("\n");
                s.append(t.as_str());
                s.append("\n");
                proof {
                    reveal_strlit("\n");
                    assert("\n"@ =~= seq!['\n']);
                }
                s
            },
            None => String::new(),
        }
    }
}

} // verus!
