//! Services under a supervision directory: the control commands a service's
//! pipe understands, the per-service path conventions, and the listing of a
//! directory's services with filtering and name ordering.

use vstd::prelude::*;
use vstd::relations::sorted_by;
use crate::sorting::{
    insert_sorted, sort_by_spec, lemma_insert_sorted_position, lemma_sort_by_spec_ensures,
};
use crate::strutil::{lex_le, spec_contains, str_contains, str_le, lemma_lex_total, lemma_lex_trans};

verus! {

/// Control commands a supervisor accepts, each written to the control pipe
/// as a single byte.
#[derive(Clone, Copy, Debug, PartialEq, Eq, Structural)]
pub enum RunitCommand {
    Up,
    Down,
    Once,
    Pause,
    Cont,
    Hup,
    Alarm,
    Interrupt,
    Quit,
    Term,
    Kill,
    Exit,
}

/// The character a command is written to the control pipe as.
pub open spec fn command_char(cmd: RunitCommand) -> char {
    match cmd {
        RunitCommand::Up => 'u',
        RunitCommand::Down => 'd',
        RunitCommand::Once => 'o',
        RunitCommand::Pause => 'p',
        RunitCommand::Cont => 'c',
        RunitCommand::Hup => 'h',
        RunitCommand::Alarm => 'a',
        RunitCommand::Interrupt => 'i',
        RunitCommand::Quit => 'q',
        RunitCommand::Term => 't',
        RunitCommand::Kill => 'k',
        RunitCommand::Exit => 'x',
    }
}

impl RunitCommand {
    /// The character the supervisor understands for this command.
    pub fn to_char(&self) -> (c: char)
        ensures
            c == command_char(*self),
    {
        match self {
            RunitCommand::Up => 'u',
            RunitCommand::Down => 'd',
            RunitCommand::Once => 'o',
            RunitCommand::Pause => 'p',
            RunitCommand::Cont => 'c',
            RunitCommand::Hup => 'h',
            RunitCommand::Alarm => 'a',
            RunitCommand::Interrupt => 'i',
            RunitCommand::Quit => 'q',
            RunitCommand::Term => 't',
            RunitCommand::Kill => 'k',
            RunitCommand::Exit => 'x',
        }
    }

    /// The same character as the raw byte to write to the pipe; every
    /// command character is ASCII.
    pub fn to_byte(&self) -> (b: u8)
        ensures
            b == command_char(*self) as u8,
    {
        self.to_char() as u8
    }
}

/// The three commands a restart is composed of, sent in this order:
/// terminate, continue, up. A failure part way leaves the earlier sends in
/// place; the supervisor knows no composite.
pub fn restart_commands() -> (r: Vec<RunitCommand>)
    ensures
        r@ == seq![RunitCommand::Term, RunitCommand::Cont, RunitCommand::Up],
{
    let mut v: Vec<RunitCommand> = Vec::new();
    v.push(RunitCommand::Term);
    v.push(RunitCommand::Cont);
    v.push(RunitCommand::Up);
    proof {
        assert(v@ =~= seq![RunitCommand::Term, RunitCommand::Cont, RunitCommand::Up]);
    }
    v
}

/// Why sending a control command failed: the pipe was missing (the service
/// is not under active supervision), or the write itself failed.
#[derive(Clone, Copy, Debug, PartialEq, Eq, Structural)]
pub enum ControlError {
    NotSupervised,
    IOFailure,
}

/// Classify the outcome of one control send from what the caller observed:
/// a missing pipe is the distinguished `NotSupervised` outcome, never a
/// generic failure; a failed write on an existing pipe is `IOFailure`.
pub fn control_send_result(pipe_exists: bool, write_ok: bool) -> (r: Result<(), ControlError>)
    ensures
        !pipe_exists ==> r == Err::<(), ControlError>(ControlError::NotSupervised),
        pipe_exists && !write_ok ==> r == Err::<(), ControlError>(ControlError::IOFailure),
        pipe_exists && write_ok ==> r == Ok::<(), ControlError>(()),
{
    if !pipe_exists {
        Err(ControlError::NotSupervised)
    } else if !write_ok {
        Err(ControlError::IOFailure)
    } else {
        Ok(())
    }
}

/// What a `RunitService` holds, at the specification level.
pub ghost struct RunitServiceV {
    pub path: Seq<char>,
    pub name: Seq<char>,
    pub supervised: bool,
    pub down_marker: bool,
    pub log_pid: Option<u32>,
}

/// A service directory, together with what the caller probed about it.
#[derive(Debug)]
pub struct RunitService {
    /// Filesystem path of the service directory.
    pub path: String,
    /// Name of the service, unique within its supervision directory.
    pub name: String,
    /// Whether `path/supervise` exists: the supervisory directory.
    pub supervised: bool,
    /// Whether the `path/down` disable marker exists.
    pub down_marker: bool,
    /// Pid reported by the log sub-service's status, when one was decoded.
    pub log_pid: Option<u32>,
}

impl View for RunitService {
    type V = RunitServiceV;

    open spec fn view(&self) -> RunitServiceV {
        RunitServiceV {
            path: self.path@,
            name: self.name@,
            supervised: self.supervised,
            down_marker: self.down_marker,
            log_pid: self.log_pid,
        }
    }
}

/// `dir` and `name` joined with a single separator.
pub open spec fn joined_path(dir: Seq<char>, name: Seq<char>) -> Seq<char> {
    dir + seq!['/'] + name
}

/// Join a directory and an entry name with a separator.
pub fn join_path(dir: &str, name: &str) -> (r: String)
    ensures
        r@ == joined_path(dir@, name@),
{
    let mut s = String::from_str(dir);
    s.append("/");
    s.append(name);
    proof {
        reveal_strlit("/");
        assert("/"@ =~= seq!['/']);
    }
    s
}

impl RunitService {
    /// A fresh service with nothing probed yet: not supervised, no disable
    /// marker, no log pid. The caller fills the probed fields in.
    pub fn new(name: &str, path: &str) -> (s: Self)
        ensures
            s@.name == name@,
            s@.path == path@,
            !s@.supervised,
            !s@.down_marker,
            s@.log_pid is None,
    {
        RunitService {
            path: String::from_str(path),
            name: String::from_str(name),
            supervised: false,
            down_marker: false,
            log_pid: None,
        }
    }

    /// Whether the service is valid: its supervisory directory is present.
    pub fn valid(&self) -> (r: bool)
        ensures
            r == self@.supervised,
    {
        self.supervised
    }

    /// Whether the service is enabled: no disable marker is present.
    pub fn enabled(&self) -> (r: bool)
        ensures
            r == !self@.down_marker,
    {
        !self.down_marker
    }

    /// Whether the associated log service reported a running process.
    pub fn log_running(&self) -> (r: bool)
        ensures
            r == (self@.log_pid is Some),
    {
        self.log_pid.is_some()
    }

    /// Path of the supervisory directory, `path/supervise`.
    pub fn supervise_path(&self) -> (r: String)
        ensures
            r@ == self@.path + "/supervise"@,
    {
        let mut s = self.path.clone();
        s.append("/supervise");
        s
    }

    /// Path of the control pipe, `path/supervise/control`.
    pub fn control_pipe_path(&self) -> (r: String)
        ensures
            r@ == self@.path + "/supervise/control"@,
    {
        let mut s = self.path.clone();
        s.append("/supervise/control");
        s
    }

    /// Path of the binary status record, `path/supervise/status`.
    pub fn status_path(&self) -> (r: String)
        ensures
            r@ == self@.path + "/supervise/status"@,
    {
        let mut s = self.path.clone();
        s.append("/supervise/status");
        s
    }

    /// Path of the disable marker, `path/down`.
    pub fn down_path(&self) -> (r: String)
        ensures
            r@ == self@.path + "/down"@,
    {
        let mut s = self.path.clone();
        s.append("/down");
        s
    }

    /// Path of the optional log sub-service directory, `path/log`.
    pub fn log_path(&self) -> (r: String)
        ensures
            r@ == self@.path + "/log"@,
    {
        let mut s = self.path.clone();
        s.append("/log");
        s
    }
}

/// What a `ServiceDirEntry` holds, at the specification level.
pub ghost struct ServiceDirEntryV {
    pub name: Seq<char>,
    pub is_dir: bool,
    pub has_log: bool,
}

/// One entry of a supervision directory, as enumerated by the caller:
/// its name, whether it is a directory, and whether it has a `log`
/// sub-directory.
#[derive(Debug)]
pub struct ServiceDirEntry {
    pub name: String,
    pub is_dir: bool,
    pub has_log: bool,
}

impl View for ServiceDirEntry {
    type V = ServiceDirEntryV;

    open spec fn view(&self) -> ServiceDirEntryV {
        ServiceDirEntryV { name: self.name@, is_dir: self.is_dir, has_log: self.has_log }
    }
}

impl Clone for ServiceDirEntry {
    fn clone(&self) -> (r: Self)
        ensures
            r@ == self@,
    {
        ServiceDirEntry { name: self.name.clone(), is_dir: self.is_dir, has_log: self.has_log }
    }
}

/// An entry survives the listing: it is a directory, and its name contains
/// the filter when one is given.
pub open spec fn entry_kept(e: ServiceDirEntryV, filter: Option<Seq<char>>) -> bool {
    e.is_dir && match filter {
        Some(f) => spec_contains(e.name, f),
        None => true,
    }
}

/// Listing order: entries compare by name, lexicographically.
pub open spec fn entry_le(a: ServiceDirEntryV, b: ServiceDirEntryV) -> bool {
    lex_le(a.name, b.name)
}

/// The service a kept entry turns into.
pub open spec fn service_of_entry(dir: Seq<char>, e: ServiceDirEntryV) -> RunitServiceV {
    RunitServiceV {
        path: joined_path(dir, e.name),
        name: e.name,
        supervised: false,
        down_marker: false,
        log_pid: None,
    }
}

/// The synthetic entry for a service's log sub-service: named "- log",
/// rooted at the service's `log` sub-directory.
pub open spec fn log_service_of_entry(dir: Seq<char>, e: ServiceDirEntryV) -> RunitServiceV {
    RunitServiceV {
        path: joined_path(dir, e.name) + "/log"@,
        name: "- log"@,
        supervised: false,
        down_marker: false,
        log_pid: None,
    }
}

/// The services produced for a sequence of entries, in order: one per
/// entry, followed by its log sub-service when logs were asked for and the
/// entry has one.
pub open spec fn services_of_entries(
    dir: Seq<char>,
    es: Seq<ServiceDirEntryV>,
    log: bool,
) -> Seq<RunitServiceV>
    decreases es.len(),
{
    if es.len() == 0 {
        Seq::empty()
    } else {
        services_of_entries(dir, es.drop_last(), log) + (if log && es.last().has_log {
            seq![service_of_entry(dir, es.last()), log_service_of_entry(dir, es.last())]
        } else {
            seq![service_of_entry(dir, es.last())]
        })
    }
}

/// The listing order as a function value.
pub open spec fn entry_leq_fn() -> spec_fn(ServiceDirEntryV, ServiceDirEntryV) -> bool {
    |a: ServiceDirEntryV, b: ServiceDirEntryV| entry_le(a, b)
}

/// The filter predicate as a function value.
pub open spec fn entry_kept_fn(filter: Option<Seq<char>>) -> spec_fn(ServiceDirEntryV) -> bool {
    |e: ServiceDirEntryV| entry_kept(e, filter)
}

/// What `get_services` returns: the directory entries that survive the
/// filter, sorted by name, each kept entry yielding its service and, when
/// asked, its log sub-service right after it.
pub open spec fn get_services_spec(
    dir: Seq<char>,
    entries: Seq<ServiceDirEntryV>,
    log: bool,
    filter: Option<Seq<char>>,
) -> Seq<RunitServiceV> {
    services_of_entries(
        dir,
        sort_by_spec(entry_leq_fn(), entries.filter(entry_kept_fn(filter))),
        log,
    )
}

/// View of the optional filter string.
pub open spec fn filter_view(filter: Option<&str>) -> Option<Seq<char>> {
    match filter {
        Some(f) => Some(f@),
        None => None,
    }
}

/// List the services of a supervision directory from its enumerated
/// entries: non-directories are skipped, a filter retains only names that
/// contain it, the result is sorted by name ascending, and with `log` set
/// each service with a `log` sub-directory is followed by a synthetic
/// "- log" service rooted there.
pub fn get_services(
    dir: &str,
    entries: &Vec<ServiceDirEntry>,
    log: bool,
    filter: Option<&str>,
) -> (r: Vec<RunitService>)
    ensures
        r@.map_values(|s: RunitService| s@) == get_services_spec(
            dir@,
            entries@.map_values(|e: ServiceDirEntry| e@),
            log,
            filter_view(filter),
        ),
{
    let ghost evs = entries@.map_values(|e: ServiceDirEntry| e@);
    let ghost fv = filter_view(filter);
    let ghost pred = entry_kept_fn(fv);
    let ghost leq = entry_leq_fn();

    // First pass: keep the directory entries that match the filter, placing
    // each at its position in name order.
    let mut sorted: Vec<ServiceDirEntry> = Vec::new();
    let mut i: usize = 0;
    while i < entries.len()
        invariant
            i <= entries.len(),
            evs == entries@.map_values(|e: ServiceDirEntry| e@),
            fv == filter_view(filter),
            pred == entry_kept_fn(fv),
            leq == entry_leq_fn(),
            sorted@.map_values(|e: ServiceDirEntry| e@) == sort_by_spec(
                leq,
                evs.take(i as int).filter(pred),
            ),
        decreases entries.len() - i,
    {
        let e = &entries[i];
        let kept = e.is_dir && match filter {
            Some(f) => str_contains(e.name.as_str(), f),
            None => true,
        };
        proof {
            assert(evs[i as int] == entries@[i as int]@);
            assert(kept == pred(evs[i as int]));
            assert(evs.take(i + 1).drop_last() =~= evs.take(i as int));
            assert(evs.take(i + 1).last() == evs[i as int]);
        }
        if kept {
            let item = e.clone();
            // Find the insertion position in name order.
            let mut j: usize = 0;
            while j < sorted.len()
                invariant
                    j <= sorted.len(),
                    forall|t: int|
                        0 <= t < j ==> !lex_le(item@.name, #[trigger] sorted@[t]@.name),
                ensures
                    j <= sorted.len(),
                    forall|t: int|
                        0 <= t < j ==> !lex_le(item@.name, #[trigger] sorted@[t]@.name),
                    j == sorted.len() || lex_le(item@.name, sorted@[j as int]@.name),
                decreases sorted.len() - j,
            {
                if str_le(item.name.as_str(), sorted[j].name.as_str()) {
                    break ;
                }
                j += 1;
            }
            proof {
                reveal(Seq::filter);
                let sv = sorted@.map_values(|e: ServiceDirEntry| e@);
                assert forall|t: int| 0 <= t < j implies !leq(item@, #[trigger] sv[t]) by {
                    assert(sv[t] == sorted@[t]@);
                    assert(!lex_le(item@.name, sorted@[t]@.name));
                }
                if j < sorted.len() {
                    assert(sv[j as int] == sorted@[j as int]@);
                    assert(leq(item@, sv[j as int]));
                }
                lemma_insert_sorted_position(leq, item@, sv, j as int);
                let ks = evs.take(i as int).filter(pred);
                assert(evs.take(i + 1).filter(pred) =~= ks.push(evs[i as int]));
                assert(ks.push(evs[i as int]).drop_last() =~= ks);
                assert(ks.push(evs[i as int]).last() == evs[i as int]);
                assert(sort_by_spec(leq, ks.push(evs[i as int])) == insert_sorted(
                    leq,
                    evs[i as int],
                    sort_by_spec(leq, ks),
                ));
            }
            let ghost old_sorted = sorted@;
            sorted.insert(j, item);
            proof {
                assert(sorted@.map_values(|e: ServiceDirEntry| e@) =~= old_sorted.map_values(
                    |e: ServiceDirEntry| e@,
                ).insert(j as int, entries@[i as int]@));
            }
        } else {
            proof {
                reveal(Seq::filter);
                assert(evs.take(i + 1).filter(pred) =~= evs.take(i as int).filter(pred));
            }
        }
        i += 1;
    }
    proof {
        assert(evs.take(entries@.len() as int) =~= evs);
    }

    // Second pass: one service per kept entry, with its log sub-service
    // right after it when asked for.
    let mut r: Vec<RunitService> = Vec::new();
    let mut k: usize = 0;
    while k < sorted.len()
        invariant
            k <= sorted.len(),
            r@.map_values(|s: RunitService| s@) == services_of_entries(
                dir@,
                sorted@.map_values(|e: ServiceDirEntry| e@).take(k as int),
                log,
            ),
        decreases sorted.len() - k,
    {
        let ghost sv = sorted@.map_values(|e: ServiceDirEntry| e@);
        let ghost old_r = r@;
        let e = &sorted[k];
        let path = join_path(dir, e.name.as_str());
        let has_log = e.has_log;
        let mut svc = RunitService::new(e.name.as_str(), path.as_str());
        r.push(svc);
        if log && has_log {
            let mut log_path = path.clone();
            log_path.append("/log");
            let log_svc = RunitService::new("- log", log_path.as_str());
            proof {
                reveal_strlit("- log");
            }
            r.push(log_svc);
        }
        proof {
            assert(sv.take(k + 1).drop_last() =~= sv.take(k as int));
            assert(sv.take(k + 1).last() == sv[k as int]);
            if log && has_log {
                assert(r@.map_values(|s: RunitService| s@) =~= old_r.map_values(
                    |s: RunitService| s@,
                ) + seq![
                    service_of_entry(dir@, sv[k as int]),
                    log_service_of_entry(dir@, sv[k as int]),
                ]);
            } else {
                assert(r@.map_values(|s: RunitService| s@) =~= old_r.map_values(
                    |s: RunitService| s@,
                ) + seq![service_of_entry(dir@, sv[k as int])]);
            }
        }
        k += 1;
    }
    proof {
        let sv = sorted@.map_values(|e: ServiceDirEntry| e@);
        assert(sv.take(sorted@.len() as int) =~= sv);
    }
    r
}

/// Law: with logs not asked for and a filter given, every listed service's
/// name contains the filter.
pub proof fn lemma_get_services_only_matching(
    dir: Seq<char>,
    entries: Seq<ServiceDirEntryV>,
    filter: Seq<char>,
)
    ensures
        forall|i: int|
            0 <= i < get_services_spec(dir, entries, false, Some(filter)).len() ==> spec_contains(
                #[trigger] get_services_spec(dir, entries, false, Some(filter))[i].name,
                filter,
            ),
{
    let pred = entry_kept_fn(Some(filter));
    let leq = entry_leq_fn();
    let kept = entries.filter(pred);
    let sorted = sort_by_spec(leq, kept);
    lemma_lex_total_entries();
    lemma_lex_trans_entries();
    lemma_sort_by_spec_ensures(leq, kept);
    assert forall|i: int| 0 <= i < sorted.len() implies spec_contains(sorted[i].name, filter) by {
        assert(sorted.contains(sorted[i]));
        assert(kept.contains(sorted[i]));
        let t = choose|t: int| 0 <= t < kept.len() && kept[t] == sorted[i];
        entries.lemma_filter_pred(pred, t);
        assert(pred(sorted[i]));
        assert(entry_kept(sorted[i], Some(filter)));
    }
    lemma_services_of_entries_names(dir, sorted, filter);
}

proof fn lemma_services_of_entries_names(
    dir: Seq<char>,
    es: Seq<ServiceDirEntryV>,
    filter: Seq<char>,
)
    requires
        forall|i: int| 0 <= i < es.len() ==> spec_contains(#[trigger] es[i].name, filter),
    ensures
        forall|i: int|
            0 <= i < services_of_entries(dir, es, false).len() ==> spec_contains(
                #[trigger] services_of_entries(dir, es, false)[i].name,
                filter,
            ),
    decreases es.len(),
{
    if es.len() > 0 {
        let d = es.drop_last();
        assert(forall|i: int| 0 <= i < d.len() ==> spec_contains(#[trigger] d[i].name, filter));
        lemma_services_of_entries_names(dir, d, filter);
        let r = services_of_entries(dir, es, false);
        let rd = services_of_entries(dir, d, false);
        assert forall|i: int| 0 <= i < r.len() implies spec_contains(r[i].name, filter) by {
            if i < rd.len() {
                assert(r[i] == rd[i]);
            } else {
                assert(r[i] == service_of_entry(dir, es.last()));
                assert(es[es.len() - 1] == es.last());
            }
        }
    }
}

proof fn lemma_lex_total_entries()
    ensures
        forall|a: ServiceDirEntryV, b: ServiceDirEntryV| #[trigger]
            entry_le(a, b) || #[trigger] entry_le(b, a),
{
    assert forall|a: ServiceDirEntryV, b: ServiceDirEntryV| #[trigger]
        entry_le(a, b) || #[trigger] entry_le(b, a) by {
        lemma_lex_total(a.name, b.name);
    }
}

proof fn lemma_lex_trans_entries()
    ensures
        forall|a: ServiceDirEntryV, b: ServiceDirEntryV, c: ServiceDirEntryV| #[trigger]
            entry_le(a, b) && #[trigger] entry_le(b, c) ==> entry_le(a, c),
{
    assert forall|a: ServiceDirEntryV, b: ServiceDirEntryV, c: ServiceDirEntryV|
        #[trigger] entry_le(a, b) && #[trigger] entry_le(b, c) implies entry_le(a, c) by {
        lemma_lex_trans(a.name, b.name, c.name);
    }
}

/// Law: with logs not asked for, the listed services come sorted by name
/// ascending.
pub proof fn lemma_get_services_sorted(
    dir: Seq<char>,
    entries: Seq<ServiceDirEntryV>,
    filter: Option<Seq<char>>,
)
    ensures
        ({
            let r = get_services_spec(dir, entries, false, filter);
            forall|i: int, j: int|
                0 <= i < j < r.len() ==> lex_le(#[trigger] r[i].name, #[trigger] r[j].name)
        }),
{
    let pred = entry_kept_fn(filter);
    let leq = entry_leq_fn();
    let kept = entries.filter(pred);
    let sorted = sort_by_spec(leq, kept);
    lemma_lex_total_entries();
    lemma_lex_trans_entries();
    lemma_sort_by_spec_ensures(leq, kept);
    lemma_services_of_entries_name_order(dir, sorted);
    let r = get_services_spec(dir, entries, false, filter);
    assert forall|i: int, j: int|
        0 <= i < j < r.len() implies lex_le(#[trigger] r[i].name, #[trigger] r[j].name) by {
        assert(sorted_by(sorted, leq));
        assert(leq(sorted[i], sorted[j]));
        assert(entry_le(sorted[i], sorted[j]));
    }
}

proof fn lemma_services_of_entries_name_order(dir: Seq<char>, es: Seq<ServiceDirEntryV>)
    requires
        sorted_by(es, entry_leq_fn()),
    ensures
        ({
            let r = services_of_entries(dir, es, false);
            r.len() == es.len() && forall|i: int|
                0 <= i < r.len() ==> #[trigger] r[i].name == es[i].name
        }),
    decreases es.len(),
{
    if es.len() > 0 {
        let d = es.drop_last();
        assert(sorted_by(d, entry_leq_fn()));
        lemma_services_of_entries_name_order(dir, d);
        let r = services_of_entries(dir, es, false);
        let rd = services_of_entries(dir, d, false);
        assert forall|i: int| 0 <= i < r.len() implies #[trigger] r[i].name == es[i].name by {
            if i < rd.len() {
                assert(r[i] == rd[i]);
                assert(d[i] == es[i]);
            } else {
                assert(r[i] == service_of_entry(dir, es.last()));
            }
        }
    }
}

} // verus!
