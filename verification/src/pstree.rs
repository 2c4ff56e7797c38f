//! Reconstruction of a process tree from a scanned process table: parsing
//! the per-process `stat` and `cmdline` texts into table entries, and
//! rendering an indented tree from a root pid with cycle safety.

use vstd::prelude::*;
use crate::sorting::{insert_sorted, sort_by_spec, lemma_insert_sorted_position};
use crate::strutil::{dec_str, parse_u32, parse_u32_spec, trim_spec, trim_str, trim_end_spec,
    trim_end_str, replace_nul_with_space, u64_to_string, is_ws, find_idx, rfind_idx, find_char,
    rfind_char};

verus! {

/// First index at or after `i` holding a non-whitespace character, or the
/// length when there is none.
pub open spec fn skip_ws_idx(s: Seq<char>, i: int) -> int
    decreases s.len() - i,
{
    if i < 0 || i >= s.len() {
        s.len() as int
    } else if !is_ws(s[i]) {
        i
    } else {
        skip_ws_idx(s, i + 1)
    }
}

/// First index at or after `i` holding a whitespace character, or the
/// length when there is none.
pub open spec fn token_end_idx(s: Seq<char>, i: int) -> int
    decreases s.len() - i,
{
    if i < 0 || i >= s.len() {
        s.len() as int
    } else if is_ws(s[i]) {
        i
    } else {
        token_end_idx(s, i + 1)
    }
}

/// The parent pid carried by a `stat` text: the second whitespace-separated
/// field after the closing parenthesis of the command name (the field
/// after the state character), or 0 when the text has no such field or it
/// is not a number.
pub open spec fn stat_ppid_spec(stat: Seq<char>) -> u32 {
    let r = rfind_idx(stat, ')');
    if r == -1 || r + 2 > stat.len() {
        0u32
    } else {
        let rest = stat.subrange(r + 2, stat.len() as int);
        let a0 = skip_ws_idx(rest, 0);
        let e0 = token_end_idx(rest, a0);
        let a1 = skip_ws_idx(rest, e0);
        let e1 = token_end_idx(rest, a1);
        if a1 >= rest.len() {
            0u32
        } else {
            match parse_u32_spec(rest.subrange(a1, e1)) {
                Some(v) => v,
                None => 0u32,
            }
        }
    }
}

/// The command name carried by a `stat` text: what stands between the
/// first opening parenthesis and the last closing one, when both exist in
/// that order.
pub open spec fn stat_comm_spec(stat: Seq<char>) -> Option<Seq<char>> {
    let l = find_idx(stat, '(');
    let r = rfind_idx(stat, ')');
    if l != -1 && r != -1 && l < r {
        Some(stat.subrange(l + 1, r))
    } else {
        None
    }
}

proof fn lemma_skip_ws_val(s: Seq<char>, i: int, k: int)
    requires
        0 <= i <= k <= s.len(),
        forall|j: int| i <= j < k ==> is_ws(s[j]),
        k == s.len() || !is_ws(s[k]),
    ensures
        skip_ws_idx(s, i) == k,
    decreases k - i,
{
    if i < k {
        lemma_skip_ws_val(s, i + 1, k);
    }
}

proof fn lemma_token_end_val(s: Seq<char>, i: int, k: int)
    requires
        0 <= i <= k <= s.len(),
        forall|j: int| i <= j < k ==> !is_ws(s[j]),
        k == s.len() || is_ws(s[k]),
    ensures
        token_end_idx(s, i) == k,
    decreases k - i,
{
    if i < k {
        lemma_token_end_val(s, i + 1, k);
    }
}

/// Skip whitespace from `i`, executable form.
fn skip_ws(s: &str, i: usize) -> (r: usize)
    requires
        i <= s@.len(),
    ensures
        r as int == skip_ws_idx(s@, i as int),
        i <= r <= s@.len(),
{
    let len = s.unicode_len();
    let mut k: usize = i;
    while k < len
        invariant
            len == s@.len(),
            i <= k <= len,
            forall|j: int| i <= j < k ==> is_ws(s@[j]),
        ensures
            i <= k <= len,
            forall|j: int| i <= j < k ==> is_ws(s@[j]),
            k == len || !is_ws(s@[k as int]),
        decreases len - k,
    {
        let c = s.get_char(k);
        if !(c == ' ' || c == '\t' || c == '\n' || c == '\r') {
            break ;
        }
        k += 1;
    }
    proof {
        lemma_skip_ws_val(s@, i as int, k as int);
    }
    k
}

/// Find the end of the token starting at `i`, executable form.
fn token_end(s: &str, i: usize) -> (r: usize)
    requires
        i <= s@.len(),
    ensures
        r as int == token_end_idx(s@, i as int),
        i <= r <= s@.len(),
{
    let len = s.unicode_len();
    let mut k: usize = i;
    while k < len
        invariant
            len == s@.len(),
            i <= k <= len,
            forall|j: int| i <= j < k ==> !is_ws(s@[j]),
        ensures
            i <= k <= len,
            forall|j: int| i <= j < k ==> !is_ws(s@[j]),
            k == len || is_ws(s@[k as int]),
        decreases len - k,
    {
        let c = s.get_char(k);
        if c == ' ' || c == '\t' || c == '\n' || c == '\r' {
            break ;
        }
        k += 1;
    }
    proof {
        lemma_token_end_val(s@, i as int, k as int);
    }
    k
}

/// Parse the parent pid out of a process's `stat` text; 0 when the text
/// does not carry one.
pub fn stat_ppid(stat: &str) -> (r: u32)
    ensures
        r == stat_ppid_spec(stat@),
{
    let len = stat.unicode_len();
    let rp = match rfind_char(stat, ')') {
        Some(i) => i,
        None => {
            return 0;
        },
    };
    if len - rp < 2 {
        return 0;
    }
    let rest = stat.substring_char(rp + 2, len);
    let rest_len = rest.unicode_len();
    let a0 = skip_ws(rest, 0);
    let e0 = token_end(rest, a0);
    let a1 = skip_ws(rest, e0);
    let e1 = token_end(rest, a1);
    if a1 >= rest_len {
        return 0;
    }
    let tok = rest.substring_char(a1, e1);
    match parse_u32(tok) {
        Some(v) => v,
        None => 0,
    }
}

/// Extract the parenthesised command name out of a process's `stat` text.
pub fn stat_comm(stat: &str) -> (r: Option<String>)
    ensures
        match r {
            Some(name) => stat_comm_spec(stat@) == Some(name@),
            None => stat_comm_spec(stat@) is None,
        },
{
    let l = match find_char(stat, '(') {
        Some(i) => i,
        None => {
            return None;
        },
    };
    let r = match rfind_char(stat, ')') {
        Some(i) => i,
        None => {
            return None;
        },
    };
    if l < r {
        Some(String::from_str(stat.substring_char(l + 1, r)))
    } else {
        None
    }
}

/// The display name of a process: its command line with NULs as spaces and
/// surrounding whitespace trimmed, when one could be read and it is not
/// empty; otherwise the command name from `stat`; otherwise the pid in
/// decimal.
pub open spec fn display_name_spec(pid: u32, stat: Seq<char>, cmdline: Option<Seq<char>>) -> Seq<
    char,
> {
    match cmdline {
        Some(cmd) => {
            if cmd.len() == 0 {
                match stat_comm_spec(stat) {
                    Some(c) => c,
                    None => dec_str(pid as int),
                }
            } else {
                trim_spec(cmd.map_values(|ch: char| if ch == '\0' { ' ' } else { ch }))
            }
        },
        None => dec_str(pid as int),
    }
}

/// Pick the display name for a process from what was read of it; `cmdline`
/// is `None` when the file could not be read at all.
pub fn proc_display_name(pid: u32, stat: &str, cmdline: Option<&str>) -> (r: String)
    ensures
        r@ == display_name_spec(pid, stat@, match cmdline {
            Some(c) => Some(c@),
            None => None,
        }),
{
    match cmdline {
        Some(cmd) => {
            if cmd.unicode_len() == 0 {
                match stat_comm(stat) {
                    Some(c) => c,
                    None => u64_to_string(pid as u64),
                }
            } else {
                let replaced = replace_nul_with_space(cmd);
                trim_str(replaced.as_str())
            }
        },
        None => u64_to_string(pid as u64),
    }
}

/// The display name of a thread: the bracketed command name from its
/// `stat` text, or nothing when that text has none.
pub open spec fn thread_name_spec(stat: Seq<char>) -> Option<Seq<char>> {
    match stat_comm_spec(stat) {
        Some(c) => Some(seq!['{'] + c + seq!['}']),
        None => None,
    }
}

/// Name a thread from its `stat` text, bracketed to tell it apart from a
/// process.
pub fn thread_display_name(stat: &str) -> (r: Option<String>)
    ensures
        match r {
            Some(name) => thread_name_spec(stat@) == Some(name@),
            None => thread_name_spec(stat@) is None,
        },
{
    match stat_comm(stat) {
        Some(c) => {
            let mut s = String::from_str("{");
            s.append(c.as_str());
            s.append("}");
            proof {
                reveal_strlit("{");
                reveal_strlit("}");
                assert("{"@ =~= seq!['{']);
                assert("}"@ =~= seq!['}']);
            }
            Some(s)
        },
        None => None,
    }
}

/// What a `ProcNode` holds, at the specification level.
pub ghost struct ProcNodeV {
    pub pid: u32,
    pub ppid: u32,
    pub name: Seq<char>,
    pub is_thread: bool,
}

/// One row of the scanned process table: a process or one of its threads,
/// with its parent and display name already resolved.
#[derive(Debug)]
pub struct ProcNode {
    pub pid: u32,
    pub ppid: u32,
    pub name: String,
    /// Threads are attached as children of their owning process and named
    /// in brackets.
    pub is_thread: bool,
}

impl View for ProcNode {
    type V = ProcNodeV;

    open spec fn view(&self) -> ProcNodeV {
        ProcNodeV { pid: self.pid, ppid: self.ppid, name: self.name@, is_thread: self.is_thread }
    }
}

/// The pids of a table, in table order.
pub open spec fn table_pids(t: Seq<ProcNodeV>) -> Seq<u32> {
    t.map_values(|n: ProcNodeV| n.pid)
}

/// The first table row with the given pid.
pub open spec fn find_node_spec(t: Seq<ProcNodeV>, p: u32) -> Option<ProcNodeV>
    decreases t.len(),
{
    if t.len() == 0 {
        None
    } else if t[0].pid == p {
        Some(t[0])
    } else {
        find_node_spec(t.drop_first(), p)
    }
}

proof fn lemma_find_node_at(t: Seq<ProcNodeV>, p: u32, k: int)
    requires
        0 <= k < t.len(),
        t[k].pid == p,
        forall|j: int| 0 <= j < k ==> t[j].pid != p,
    ensures
        find_node_spec(t, p) == Some(t[k]),
    decreases t.len(),
{
    if k > 0 {
        assert(forall|j: int| 0 <= j < k - 1 ==> t.drop_first()[j].pid != p);
        lemma_find_node_at(t.drop_first(), p, k - 1);
        assert(t.drop_first()[k - 1] == t[k]);
    }
}

proof fn lemma_find_node_none(t: Seq<ProcNodeV>, p: u32)
    requires
        forall|j: int| 0 <= j < t.len() ==> t[j].pid != p,
    ensures
        find_node_spec(t, p) is None,
    decreases t.len(),
{
    if t.len() > 0 {
        assert(forall|j: int| 0 <= j < t.drop_first().len() ==> t.drop_first()[j].pid != p);
        lemma_find_node_none(t.drop_first(), p);
    }
}

/// Find the index of the first table row with the given pid.
fn find_node_idx(table: &Vec<ProcNode>, p: u32) -> (r: Option<usize>)
    ensures
        match r {
            Some(i) => i < table@.len() && table@[i as int]@.pid == p && find_node_spec(
                table@.map_values(|n: ProcNode| n@),
                p,
            ) == Some(table@[i as int]@),
            None => find_node_spec(table@.map_values(|n: ProcNode| n@), p) is None,
        },
{
    let ghost tv = table@.map_values(|n: ProcNode| n@);
    let mut i: usize = 0;
    while i < table.len()
        invariant
            tv == table@.map_values(|n: ProcNode| n@),
            i <= table@.len(),
            forall|j: int| 0 <= j < i ==> tv[j].pid != p,
        decreases table@.len() - i,
    {
        if table[i].pid == p {
            proof {
                lemma_find_node_at(tv, p, i as int);
            }
            return Some(i);
        }
        i += 1;
    }
    proof {
        lemma_find_node_none(tv, p);
    }
    None
}

/// Numeric order on pids, as a function value.
pub open spec fn u32_leq_fn() -> spec_fn(u32, u32) -> bool {
    |a: u32, b: u32| a <= b
}

/// The child predicate for a parent pid, as a function value.
pub open spec fn child_pred_fn(p: u32) -> spec_fn(ProcNodeV) -> bool {
    |n: ProcNodeV| n.ppid == p
}

/// The children of `p`: the pids of every row whose parent is `p`, in
/// ascending numeric order.
pub open spec fn children_spec(t: Seq<ProcNodeV>, p: u32) -> Seq<u32> {
    sort_by_spec(u32_leq_fn(), t.filter(child_pred_fn(p)).map_values(|n: ProcNodeV| n.pid))
}

/// Collect the children of `p`, sorted ascending by pid.
fn children_of(table: &Vec<ProcNode>, p: u32) -> (r: Vec<u32>)
    ensures
        r@ == children_spec(table@.map_values(|n: ProcNode| n@), p),
{
    let ghost tv = table@.map_values(|n: ProcNode| n@);
    let ghost pred = child_pred_fn(p);
    let ghost leq = u32_leq_fn();
    let ghost pidf = |n: ProcNodeV| n.pid;
    let mut out: Vec<u32> = Vec::new();
    let mut i: usize = 0;
    while i < table.len()
        invariant
            tv == table@.map_values(|n: ProcNode| n@),
            pred == child_pred_fn(p),
            leq == u32_leq_fn(),
            pidf == (|n: ProcNodeV| n.pid),
            i <= table@.len(),
            out@ == sort_by_spec(leq, tv.take(i as int).filter(pred).map_values(pidf)),
        decreases table@.len() - i,
    {
        let node_ppid = table[i].ppid;
        let pid = table[i].pid;
        proof {
            assert(tv[i as int] == table@[i as int]@);
            assert(tv.take(i + 1).drop_last() =~= tv.take(i as int));
            assert(tv.take(i + 1).last() == tv[i as int]);
        }
        if node_ppid == p {
            let mut j: usize = 0;
            while j < out.len()
                invariant
                    j <= out.len(),
                    forall|t: int| 0 <= t < j ==> #[trigger] out@[t] < pid,
                ensures
                    j <= out.len(),
                    forall|t: int| 0 <= t < j ==> #[trigger] out@[t] < pid,
                    j == out.len() || pid <= out@[j as int],
                decreases out.len() - j,
            {
                if pid <= out[j] {
                    break ;
                }
                j += 1;
            }
            proof {
                reveal(Seq::filter);
                assert(forall|t: int| 0 <= t < j ==> !leq(pid, #[trigger] out@[t]));
                if j < out.len() {
                    assert(leq(pid, out@[j as int]));
                }
                lemma_insert_sorted_position(leq, pid, out@, j as int);
                let ks = tv.take(i as int).filter(pred);
                assert(tv.take(i + 1).filter(pred) =~= ks.push(tv[i as int]));
                assert(ks.push(tv[i as int]).map_values(pidf) =~= ks.map_values(pidf).push(pid));
                let ps = ks.map_values(pidf);
                assert(ps.push(pid).drop_last() =~= ps);
                assert(ps.push(pid).last() == pid);
                assert(sort_by_spec(leq, ps.push(pid)) == insert_sorted(
                    leq,
                    pid,
                    sort_by_spec(leq, ps),
                ));
            }
            out.insert(j, pid);
        } else {
            proof {
                reveal(Seq::filter);
                assert(tv.take(i + 1).filter(pred) =~= tv.take(i as int).filter(pred));
            }
        }
        i += 1;
    }
    proof {
        assert(tv.take(table@.len() as int) =~= tv);
    }
    out
}

/// `s` with the first occurrence of `c` removed.
pub open spec fn remove_value(s: Seq<u32>, c: u32) -> Seq<u32>
    decreases s.len(),
{
    if s.len() == 0 {
        s
    } else if s[0] == c {
        s.drop_first()
    } else {
        seq![s[0]] + remove_value(s.drop_first(), c)
    }
}

proof fn lemma_remove_value_len(s: Seq<u32>, c: u32)
    ensures
        s.contains(c) ==> remove_value(s, c).len() == s.len() - 1,
        !s.contains(c) ==> remove_value(s, c) == s,
    decreases s.len(),
{
    if s.len() > 0 && s[0] != c {
        lemma_remove_value_len(s.drop_first(), c);
        if !s.contains(c) {
            assert(!s.drop_first().contains(c)) by {
                if s.drop_first().contains(c) {
                    let k = choose|k: int| 0 <= k < s.drop_first().len() && s.drop_first()[k] == c;
                    assert(s[k + 1] == c);
                }
            }
            assert(seq![s[0]] + s.drop_first() =~= s);
        } else {
            let k = choose|k: int| 0 <= k < s.len() && s[k] == c;
            assert(s.drop_first()[k - 1] == c);
        }
    }
}

proof fn lemma_remove_value_at(s: Seq<u32>, c: u32, k: int)
    requires
        0 <= k < s.len(),
        s[k] == c,
        forall|j: int| 0 <= j < k ==> s[j] != c,
    ensures
        remove_value(s, c) == s.remove(k),
    decreases s.len(),
{
    if k == 0 {
        assert(remove_value(s, c) =~= s.remove(0));
    } else {
        assert(forall|j: int| 0 <= j < k - 1 ==> s.drop_first()[j] != c);
        assert(s.drop_first()[k - 1] == c);
        lemma_remove_value_at(s.drop_first(), c, k - 1);
        assert(seq![s[0]] + s.drop_first().remove(k - 1) =~= s.remove(k));
    }
}

/// Exclusion of a rendered set, as a function value.
pub open spec fn not_in_fn(ex: Seq<u32>) -> spec_fn(u32) -> bool {
    |p: u32| !ex.contains(p)
}

/// Everything but the root, as a function value.
pub open spec fn ne_fn(root: u32) -> spec_fn(u32) -> bool {
    |p: u32| p != root
}

/// The connector drawn before a child's name: a corner for the last child
/// at its level, a tee for every other.
pub open spec fn connector(last: bool) -> Seq<char> {
    if last {
        "└─"@
    } else {
        "├─"@
    }
}

/// What a child's subtree indents its own children by: blanks under a last
/// child, a bar under the others.
pub open spec fn child_pad(last: bool) -> Seq<char> {
    if last {
        "  "@
    } else {
        "│ "@
    }
}

/// Render the subtrees of a sibling list, depth first. `rem` holds the
/// pids not yet rendered: a pid outside it is skipped, never rendered
/// twice, which bounds the walk even when the table implies a cycle.
/// Returns the rendered text and the pids rendered, in output order.
pub open spec fn render_from(
    t: Seq<ProcNodeV>,
    sibs: Seq<u32>,
    prefix: Seq<char>,
    rem: Seq<u32>,
) -> (Seq<char>, Seq<u32>)
    decreases rem.len(), sibs.len(),
    via render_from_decreases
{
    if sibs.len() == 0 {
        (Seq::empty(), Seq::empty())
    } else {
        let c = sibs[0];
        let rest = sibs.drop_first();
        if rem.contains(c) {
            match find_node_spec(t, c) {
                Some(node) => {
                    let last = sibs.len() == 1;
                    let line = prefix + connector(last) + node.name + seq!['\n'];
                    let rem1 = remove_value(rem, c);
                    let (subtext, subrend) = render_from(
                        t,
                        children_spec(t, c),
                        prefix + child_pad(last),
                        rem1,
                    );
                    let rem2 = rem1.filter(not_in_fn(subrend));
                    let (tailtext, tailrend) = render_from(t, rest, prefix, rem2);
                    (line + subtext + tailtext, seq![c] + subrend + tailrend)
                },
                None => render_from(t, rest, prefix, rem),
            }
        } else {
            render_from(t, rest, prefix, rem)
        }
    }
}

#[via_fn]
proof fn render_from_decreases(t: Seq<ProcNodeV>, sibs: Seq<u32>, prefix: Seq<char>, rem: Seq<u32>) {
    if sibs.len() > 0 {
        let c = sibs[0];
        if rem.contains(c) {
            lemma_remove_value_len(rem, c);
            let rem1 = remove_value(rem, c);
            assert forall|pred: spec_fn(u32) -> bool| (#[trigger] rem1.filter(pred)).len()
                <= rem1.len() by {
                rem1.lemma_filter_len(pred);
            }
        }
    }
}

/// The whole tree text for a root pid: the root's own name on the first
/// line, the rendered subtrees under it, and trailing whitespace trimmed;
/// empty when the root is not in the table.
pub open spec fn pstree_spec(root: u32, t: Seq<ProcNodeV>) -> Seq<char> {
    match find_node_spec(t, root) {
        None => Seq::empty(),
        Some(n) => {
            let rem0 = table_pids(t).filter(ne_fn(root));
            let (text, rendered) = render_from(t, children_spec(t, root), Seq::empty(), rem0);
            trim_end_spec(n.name + seq!['\n'] + text)
        },
    }
}

/// Whether `x` occurs in a pid list.
fn contains_u32(v: &Vec<u32>, x: u32) -> (r: bool)
    ensures
        r == v@.contains(x),
{
    let mut i: usize = 0;
    while i < v.len()
        invariant
            i <= v@.len(),
            forall|j: int| 0 <= j < i ==> v@[j] != x,
        decreases v@.len() - i,
    {
        if v[i] == x {
            return true;
        }
        i += 1;
    }
    false
}

/// Index of the first occurrence of `x` in a pid list.
fn index_of_first_u32(v: &Vec<u32>, x: u32) -> (r: Option<usize>)
    ensures
        match r {
            Some(i) => i < v@.len() && v@[i as int] == x && (forall|j: int|
                0 <= j < i ==> v@[j] != x),
            None => !v@.contains(x),
        },
{
    let mut i: usize = 0;
    while i < v.len()
        invariant
            i <= v@.len(),
            forall|j: int| 0 <= j < i ==> v@[j] != x,
        decreases v@.len() - i,
    {
        if v[i] == x {
            return Some(i);
        }
        i += 1;
    }
    None
}

/// A copy of `v` with the element at `i` left out.
fn copy_without_index(v: &Vec<u32>, i: usize) -> (r: Vec<u32>)
    requires
        i < v@.len(),
    ensures
        r@ == v@.remove(i as int),
{
    let mut out: Vec<u32> = Vec::new();
    let mut k: usize = 0;
    while k < v.len()
        invariant
            i < v@.len(),
            k <= v@.len(),
            out@ =~= if k <= i {
                v@.take(k as int)
            } else {
                v@.remove(i as int).take(k - 1)
            },
        decreases v@.len() - k,
    {
        if k != i {
            out.push(v[k]);
        }
        proof {
            if k < i {
                assert(v@.take(k + 1) =~= v@.take(k as int).push(v@[k as int]));
            } else if k == i {
                assert(v@.remove(i as int).take(k as int) =~= v@.take(k as int));
            } else {
                assert(v@.remove(i as int).take(k as int) =~= v@.remove(i as int).take(
                    k - 1,
                ).push(v@[k as int]));
                assert(v@.remove(i as int)[k - 1] == v@[k as int]);
            }
        }
        k += 1;
    }
    proof {
        assert(v@.remove(i as int).take(v@.len() - 1) =~= v@.remove(i as int));
    }
    out
}

/// `v` without the pids that occur in `ex`.
fn filter_out(v: &Vec<u32>, ex: &Vec<u32>) -> (r: Vec<u32>)
    ensures
        r@ == v@.filter(not_in_fn(ex@)),
{
    let ghost pred = not_in_fn(ex@);
    let mut out: Vec<u32> = Vec::new();
    let mut i: usize = 0;
    while i < v.len()
        invariant
            pred == not_in_fn(ex@),
            i <= v@.len(),
            out@ == v@.take(i as int).filter(pred),
        decreases v@.len() - i,
    {
        let keep = !contains_u32(ex, v[i]);
        proof {
            reveal(Seq::filter);
            assert(keep == pred(v@[i as int]));
            assert(v@.take(i + 1).drop_last() =~= v@.take(i as int));
            assert(v@.take(i + 1).last() == v@[i as int]);
        }
        if keep {
            out.push(v[i]);
        }
        i += 1;
    }
    proof {
        assert(v@.take(v@.len() as int) =~= v@);
    }
    out
}

/// Render the subtrees of the siblings `sibs[start..]`, depth first,
/// against the not-yet-rendered pids in `rem`.
fn render_sub(table: &Vec<ProcNode>, sibs: &Vec<u32>, start: usize, prefix: &str, rem: &Vec<u32>)
    -> (r: (String, Vec<u32>))
    requires
        start <= sibs@.len(),
    ensures
        ({
            let (text, rendered) = render_from(
                table@.map_values(|n: ProcNode| n@),
                sibs@.skip(start as int),
                prefix@,
                rem@,
            );
            r.0@ == text && r.1@ == rendered
        }),
    decreases rem@.len(), sibs@.len() - start,
{
    let ghost tv = table@.map_values(|n: ProcNode| n@);
    if start == sibs.len() {
        proof {
            assert(sibs@.skip(start as int).len() == 0);
        }
        return (String::new(), Vec::new());
    }
    let c = sibs[start];
    proof {
        assert(sibs@.skip(start as int)[0] == sibs@[start as int]);
        assert(sibs@.skip(start as int).drop_first() =~= sibs@.skip(start + 1));
    }
    let cpos = index_of_first_u32(rem, c);
    proof {
        if cpos is Some {
            assert(rem@.contains(c));
        }
    }
    match cpos {
        None => render_sub(table, sibs, start + 1, prefix, rem),
        Some(ci) => {
            match find_node_idx(table, c) {
                None => render_sub(table, sibs, start + 1, prefix, rem),
                Some(ni) => {
                    let last = start + 1 == sibs.len();
                    proof {
                        assert(last == (sibs@.skip(start as int).len() == 1));
                    }
                    let mut line = String::from_str(prefix);
                    if last {
                        line.append("└─");
                    } else {
                        line.append("├─");
                    }
                    line.append(table[ni].name.as_str());
                    line.append("\n");
                    proof {
                        reveal_strlit("\n");
                        assert("\n"@ =~= seq!['\n']);
                        assert(line@ =~= prefix@ + connector(last) + tv[ni as int].name + seq![
                            '\n',
                        ]);
                    }
                    let rem1 = copy_without_index(rem, ci);
                    proof {
                        lemma_remove_value_at(rem@, c, ci as int);
                    }
                    let kids = children_of(table, c);
                    let mut prefix2 = String::from_str(prefix);
                    if last {
                        prefix2.append("  ");
                    } else {
                        prefix2.append("│ ");
                    }
                    proof {
                        assert(prefix2@ == prefix@ + child_pad(last));
                    }
                    let (subtext, subrend) = render_sub(table, &kids, 0, prefix2.as_str(), &rem1);
                    proof {
                        assert(kids@.skip(0) =~= kids@);
                    }
                    let rem2 = filter_out(&rem1, &subrend);
                    let (tailtext, tailrend) = render_sub(table, sibs, start + 1, prefix, &rem2);
                    let mut text = line;
                    text.append(subtext.as_str());
                    text.append(tailtext.as_str());
                    let mut rendered: Vec<u32> = Vec::new();
                    rendered.push(c);
                    let mut sub_mut = subrend;
                    rendered.append(&mut sub_mut);
                    let mut tail_mut = tailrend;
                    rendered.append(&mut tail_mut);
                    proof {
                        let (stext, srend) = render_from(tv, sibs@.skip(start as int), prefix@, rem@);
                        assert(rendered@ =~= srend);
                        assert(text@ =~= stext);
                    }
                    (text, rendered)
                },
            }
        },
    }
}

/// Build the tree text for `root_pid` from a scanned process table: the
/// root's name, then each child rendered depth first behind tee and corner
/// connectors, children ordered by pid, no pid rendered twice even when a
/// racing scan implies a cycle; empty when the root is not in the table.
pub fn get_pstree(root_pid: u32, table: &Vec<ProcNode>) -> (r: String)
    ensures
        r@ == pstree_spec(root_pid, table@.map_values(|n: ProcNode| n@)),
{
    let ghost tv = table@.map_values(|n: ProcNode| n@);
    let root_idx = match find_node_idx(table, root_pid) {
        Some(i) => i,
        None => {
            return String::new();
        },
    };
    let mut rem0: Vec<u32> = Vec::new();
    let ghost nef = ne_fn(root_pid);
    let mut i: usize = 0;
    while i < table.len()
        invariant
            tv == table@.map_values(|n: ProcNode| n@),
            nef == ne_fn(root_pid),
            i <= table@.len(),
            rem0@ == table_pids(tv).take(i as int).filter(nef),
        decreases table@.len() - i,
    {
        let pid = table[i].pid;
        proof {
            reveal(Seq::filter);
            assert(table_pids(tv)[i as int] == tv[i as int].pid);
            assert(table_pids(tv).take(i + 1).drop_last() =~= table_pids(tv).take(i as int));
            assert(table_pids(tv).take(i + 1).last() == table_pids(tv)[i as int]);
        }
        if pid != root_pid {
            rem0.push(pid);
        }
        i += 1;
    }
    proof {
        assert(table_pids(tv).take(table_pids(tv).len() as int) =~= table_pids(tv));
    }
    let kids = children_of(table, root_pid);
    let (text, _rendered) = render_sub(table, &kids, 0, "", &rem0);
    proof {
        assert(kids@.skip(0) =~= kids@);
        reveal_strlit("");
        assert(""@ =~= Seq::<char>::empty());
    }
    let mut out = String::from_str(table[root_idx].name.as_str());
    out.append("\n");
    out.append(text.as_str());
    proof {
        reveal_strlit("\n");
        assert("\n"@ =~= seq!['\n']);
    }
    trim_end_str(out.as_str())
}

/// Law: no pid is rendered twice, and only pids from the not-yet-rendered
/// list are rendered at all. Together with the renderer being a total
/// function this is the cycle safety of the tree walk: even a table whose
/// parent links form a cycle yields a finite tree without duplicates.
pub proof fn lemma_render_no_duplicates(
    t: Seq<ProcNodeV>,
    sibs: Seq<u32>,
    prefix: Seq<char>,
    rem: Seq<u32>,
)
    requires
        rem.no_duplicates(),
    ensures
        ({
            let (text, rendered) = render_from(t, sibs, prefix, rem);
            rendered.no_duplicates() && (forall|p: u32|
                rendered.contains(p) ==> rem.contains(p))
        }),
    decreases rem.len(), sibs.len(),
{
    if sibs.len() > 0 {
        let c = sibs[0];
        let rest = sibs.drop_first();
        if rem.contains(c) && find_node_spec(t, c) is Some {
            let last = sibs.len() == 1;
            let rem1 = remove_value(rem, c);
            lemma_remove_value_len(rem, c);
            lemma_remove_value_no_duplicates(rem, c);
            let (subtext, subrend) = render_from(
                t,
                children_spec(t, c),
                prefix + child_pad(last),
                rem1,
            );
            lemma_render_no_duplicates(t, children_spec(t, c), prefix + child_pad(last), rem1);
            let rem2 = rem1.filter(not_in_fn(subrend));
            rem1.lemma_filter_len(not_in_fn(subrend));
            lemma_filter_no_duplicates(rem1, not_in_fn(subrend));
            lemma_render_no_duplicates(t, rest, prefix, rem2);
            let (tailtext, tailrend) = render_from(t, rest, prefix, rem2);
            let all = seq![c] + subrend + tailrend;
            assert(render_from(t, sibs, prefix, rem).1 == all);
            assert forall|p: u32| all.contains(p) implies rem.contains(p) by {
                let k = choose|k: int| 0 <= k < all.len() && all[k] == p;
                if k == 0 {
                    assert(p == c);
                } else if k < 1 + subrend.len() {
                    assert(subrend[k - 1] == p);
                    assert(subrend.contains(p));
                    assert(rem1.contains(p));
                    lemma_remove_value_elements(rem, c, p);
                } else {
                    assert(tailrend[k - 1 - subrend.len()] == p);
                    assert(tailrend.contains(p));
                    assert(rem2.contains(p));
                    lemma_filter_subset_contains(rem1, not_in_fn(subrend), p);
                    lemma_remove_value_elements(rem, c, p);
                }
            }
            assert forall|i2: int, j2: int| 0 <= i2 < j2 < all.len() implies all[i2] != all[j2] by {
                if i2 == 0 {
                    // the head is `c`, which is no longer in `rem1`, while
                    // everything after it is.
                    if j2 < 1 + subrend.len() {
                        assert(all[j2] == subrend[j2 - 1]);
                        assert(subrend.contains(subrend[j2 - 1]));
                        assert(rem1.contains(subrend[j2 - 1]));
                    } else {
                        let p = tailrend[j2 - 1 - subrend.len()];
                        assert(all[j2] == p);
                        assert(tailrend.contains(p));
                        assert(rem2.contains(p));
                        lemma_filter_subset_contains(rem1, not_in_fn(subrend), p);
                    }
                } else if i2 < 1 + subrend.len() {
                    if j2 < 1 + subrend.len() {
                        assert(all[i2] == subrend[i2 - 1]);
                        assert(all[j2] == subrend[j2 - 1]);
                    } else {
                        // a tail element survived the filter that removed
                        // everything the subtree rendered.
                        let p = tailrend[j2 - 1 - subrend.len()];
                        assert(all[i2] == subrend[i2 - 1]);
                        assert(all[j2] == p);
                        assert(subrend.contains(subrend[i2 - 1]));
                        assert(tailrend.contains(p));
                        assert(rem2.contains(p));
                        lemma_filter_subset_contains(rem1, not_in_fn(subrend), p);
                        assert(!subrend.contains(p));
                    }
                } else {
                    assert(all[i2] == tailrend[i2 - 1 - subrend.len()]);
                    assert(all[j2] == tailrend[j2 - 1 - subrend.len()]);
                }
            }
        } else {
            lemma_render_no_duplicates(t, rest, prefix, rem);
        }
    }
}

proof fn lemma_remove_value_no_duplicates(s: Seq<u32>, c: u32)
    requires
        s.no_duplicates(),
    ensures
        remove_value(s, c).no_duplicates(),
        s.contains(c) ==> !remove_value(s, c).contains(c),
    decreases s.len(),
{
    broadcast use vstd::seq_lib::group_seq_properties;

    if s.len() > 0 {
        if s[0] == c {
            assert(remove_value(s, c) == s.drop_first());
            assert forall|p: u32| s.drop_first().contains(p) implies s.contains(p) by {
                let k = choose|k: int| 0 <= k < s.drop_first().len() && s.drop_first()[k] == p;
                assert(s[k + 1] == p);
            }
            if s.drop_first().contains(c) {
                let k = choose|k: int| 0 <= k < s.drop_first().len() && s.drop_first()[k] == c;
                assert(s[k + 1] == c && s[0] == c);
            }
        } else {
            lemma_remove_value_no_duplicates(s.drop_first(), c);
            let r = seq![s[0]] + remove_value(s.drop_first(), c);
            assert forall|i2: int, j2: int| 0 <= i2 < j2 < r.len() implies r[i2] != r[j2] by {
                if i2 == 0 {
                    assert(r[j2] == remove_value(s.drop_first(), c)[j2 - 1]);
                    lemma_remove_value_elements(s.drop_first(), c, r[j2]);
                    let k = choose|k: int|
                        0 <= k < s.drop_first().len() && s.drop_first()[k] == r[j2];
                    assert(s[k + 1] == r[j2]);
                } else {
                    assert(r[i2] == remove_value(s.drop_first(), c)[i2 - 1]);
                    assert(r[j2] == remove_value(s.drop_first(), c)[j2 - 1]);
                }
            }
            if s.contains(c) && r.contains(c) {
                let k = choose|k: int| 0 <= k < r.len() && r[k] == c;
                assert(k > 0);
                assert(remove_value(s.drop_first(), c)[k - 1] == c);
                assert(remove_value(s.drop_first(), c).contains(c));
                assert(s.drop_first().contains(c)) by {
                    let k2 = choose|k2: int| 0 <= k2 < s.len() && s[k2] == c;
                    assert(s.drop_first()[k2 - 1] == c);
                }
            }
        }
    }
}

proof fn lemma_remove_value_elements(s: Seq<u32>, c: u32, p: u32)
    requires
        remove_value(s, c).contains(p),
    ensures
        s.contains(p),
    decreases s.len(),
{
    if s.len() > 0 {
        if s[0] == c {
            let k = choose|k: int| 0 <= k < s.drop_first().len() && s.drop_first()[k] == p;
            assert(s[k + 1] == p);
        } else {
            let r = seq![s[0]] + remove_value(s.drop_first(), c);
            let k = choose|k: int| 0 <= k < r.len() && r[k] == p;
            if k == 0 {
                assert(s[0] == p);
            } else {
                assert(remove_value(s.drop_first(), c)[k - 1] == p);
                assert(remove_value(s.drop_first(), c).contains(p));
                lemma_remove_value_elements(s.drop_first(), c, p);
                let k2 = choose|k2: int|
                    0 <= k2 < s.drop_first().len() && s.drop_first()[k2] == p;
                assert(s[k2 + 1] == p);
            }
        }
    }
}

proof fn lemma_remove_value_contains(s: Seq<u32>, c: u32, p: u32)
    requires
        remove_value(s, c).contains(p),
    ensures
        s.contains(p),
{
    lemma_remove_value_elements(s, c, p);
}

proof fn lemma_filter_subset_contains(s: Seq<u32>, pred: spec_fn(u32) -> bool, p: u32)
    requires
        s.filter(pred).contains(p),
    ensures
        s.contains(p),
        pred(p),
    decreases s.len(),
{
    reveal(Seq::filter);
    if s.len() > 0 {
        let d = s.drop_last();
        if pred(s.last()) {
            if s.filter(pred).last() == p && !d.filter(pred).contains(p) {
                assert(s[s.len() - 1] == p);
            } else {
                let k = choose|k: int| 0 <= k < s.filter(pred).len() && s.filter(pred)[k] == p;
                if k < d.filter(pred).len() {
                    assert(d.filter(pred)[k] == p);
                    lemma_filter_subset_contains(d, pred, p);
                    let k2 = choose|k2: int| 0 <= k2 < d.len() && d[k2] == p;
                    assert(s[k2] == p);
                } else {
                    assert(s[s.len() - 1] == p);
                }
            }
        } else {
            lemma_filter_subset_contains(d, pred, p);
            let k2 = choose|k2: int| 0 <= k2 < d.len() && d[k2] == p;
            assert(s[k2] == p);
        }
    }
}

proof fn lemma_filter_no_duplicates(s: Seq<u32>, pred: spec_fn(u32) -> bool)
    requires
        s.no_duplicates(),
    ensures
        s.filter(pred).no_duplicates(),
    decreases s.len(),
{
    reveal(Seq::filter);
    if s.len() > 0 {
        let d = s.drop_last();
        lemma_filter_no_duplicates(d, pred);
        if pred(s.last()) {
            assert(!d.filter(pred).contains(s.last())) by {
                if d.filter(pred).contains(s.last()) {
                    lemma_filter_subset_contains(d, pred, s.last());
                    let k = choose|k: int| 0 <= k < d.len() && d[k] == s.last();
                    assert(s[k] == s[s.len() - 1]);
                }
            }
            let r = d.filter(pred).push(s.last());
            assert forall|i2: int, j2: int| 0 <= i2 < j2 < r.len() implies r[i2] != r[j2] by {
                if j2 < r.len() - 1 {
                    assert(d.filter(pred)[i2] != d.filter(pred)[j2]);
                } else {
                    assert(r[j2] == s.last());
                    assert(d.filter(pred).contains(r[i2]));
                }
            }
        }
    }
}

} // verus!
