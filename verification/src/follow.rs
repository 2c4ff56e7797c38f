//! The computations behind following a growing log file: where the first
//! read starts, which of the already-present lines are shown, how freshly
//! appended bytes split into complete lines and a buffered fragment, and
//! when a shrinking file counts as truncation.

use vstd::prelude::*;
use crate::strutil::{
    find_idx, lemma_find_idx_bounds, rfind_char, spec_contains, str_contains, trim_end_spec,
    trim_end_str,
};

verus! {

/// A line segment with one trailing carriage return stripped.
pub open spec fn strip_cr(l: Seq<char>) -> Seq<char> {
    if l.len() > 0 && l.last() == '\r' {
        l.drop_last()
    } else {
        l
    }
}

/// The lines of a text: segments split at newlines, each stripped of one
/// carriage return before the newline; a final fragment without a newline
/// is a line as it stands, and a trailing newline adds no empty line.
pub open spec fn spec_lines(s: Seq<char>) -> Seq<Seq<char>>
    decreases s.len(),
    via spec_lines_decreases
{
    if s.len() == 0 {
        Seq::empty()
    } else {
        let i = find_idx(s, '\n');
        if i == -1 {
            seq![s]
        } else {
            seq![strip_cr(s.subrange(0, i))] + spec_lines(s.subrange(i + 1, s.len() as int))
        }
    }
}

#[via_fn]
proof fn spec_lines_decreases(s: Seq<char>) {
    lemma_find_idx_bounds(s, '\n');
}

/// Line-retention predicate for a filter string, as a function value.
pub open spec fn contains_fn(f: Seq<char>) -> spec_fn(Seq<char>) -> bool {
    |l: Seq<char>| spec_contains(l, f)
}

/// The byte offset the first read of a followed file starts at: 0 when the
/// whole file was asked for, else the file length less a byte budget of
/// 200 bytes per wanted line with an 8 KiB floor, and never before the
/// start of the file.
pub open spec fn tail_start_spec(file_len: u64, n_lines: int, read_all: bool) -> u64 {
    if read_all {
        0u64
    } else {
        let budget = if 200 * n_lines > 8192 {
            200 * n_lines
        } else {
            8192
        };
        if file_len > budget {
            (file_len - budget) as u64
        } else {
            0u64
        }
    }
}

/// Compute where the first read starts; see `tail_start_spec`.
pub fn tail_start(file_len: u64, n_lines: usize, read_all: bool) -> (r: u64)
    requires
        200 * (n_lines as int) <= u64::MAX,
    ensures
        r == tail_start_spec(file_len, n_lines as int, read_all),
{
    if read_all {
        return 0;
    }
    let est: u64 = (n_lines as u64) * 200;
    let budget: u64 = if est > 8192 {
        est
    } else {
        8192
    };
    if file_len > budget {
        file_len - budget
    } else {
        0
    }
}

proof fn lemma_lines_step(s: Seq<char>, st: int, i: int)
    requires
        0 <= st <= i < s.len(),
        s[i] == '\n',
        forall|j: int| st <= j < i ==> s[j] != '\n',
    ensures
        spec_lines(s.subrange(st, s.len() as int)) == seq![strip_cr(s.subrange(st, i))]
            + spec_lines(s.subrange(i + 1, s.len() as int)),
{
    let sub = s.subrange(st, s.len() as int);
    assert(forall|j: int| 0 <= j < i - st ==> sub[j] != '\n');
    assert(sub[i - st] == '\n');
    crate::strutil::lemma_find_idx_at(sub, '\n', i - st);
    assert(sub.subrange(0, i - st) =~= s.subrange(st, i));
    assert(sub.subrange(i - st + 1, sub.len() as int) =~= s.subrange(i + 1, s.len() as int));
}

proof fn lemma_lines_last(s: Seq<char>, st: int)
    requires
        0 <= st <= s.len(),
        forall|j: int| st <= j < s.len() ==> s[j] != '\n',
    ensures
        spec_lines(s.subrange(st, s.len() as int)) == if st < s.len() {
            seq![s.subrange(st, s.len() as int)]
        } else {
            Seq::<Seq<char>>::empty()
        },
{
    let sub = s.subrange(st, s.len() as int);
    if st < s.len() {
        assert(forall|j: int| 0 <= j < sub.len() ==> sub[j] != '\n');
        crate::strutil::lemma_find_idx_none(sub, '\n');
    }
}

/// Split a text into its lines; see `spec_lines`.
pub fn split_lines(s: &str) -> (r: Vec<String>)
    ensures
        r@.map_values(|l: String| l@) == spec_lines(s@),
{
    let len = s.unicode_len();
    let mut out: Vec<String> = Vec::new();
    let mut st: usize = 0;
    let mut i: usize = 0;
    proof {
        assert(s@.subrange(0, s@.len() as int) =~= s@);
    }
    while i < len
        invariant
            len == s@.len(),
            st <= i <= len,
            forall|j: int| st <= j < i ==> s@[j] != '\n',
            spec_lines(s@) == out@.map_values(|l: String| l@) + spec_lines(
                s@.subrange(st as int, s@.len() as int),
            ),
        decreases len - i,
    {
        if s.get_char(i) == '\n' {
            let piece = if i > st && s.get_char(i - 1) == '\r' {
                s.substring_char(st, i - 1)
            } else {
                s.substring_char(st, i)
            };
            proof {
                lemma_lines_step(s@, st as int, i as int);
                if i > st && s@[i - 1] == '\r' {
                    assert(s@.subrange(st as int, i as int).last() == s@[i - 1]);
                    assert(s@.subrange(st as int, i - 1) =~= s@.subrange(
                        st as int,
                        i as int,
                    ).drop_last());
                } else {
                    assert(strip_cr(s@.subrange(st as int, i as int)) == s@.subrange(
                        st as int,
                        i as int,
                    ));
                }
                assert(piece@ == strip_cr(s@.subrange(st as int, i as int)));
            }
            let ghost old_out = out@;
            out.push(String::from_str(piece));
            proof {
                assert(out@.map_values(|l: String| l@) =~= old_out.map_values(|l: String| l@)
                    + seq![strip_cr(s@.subrange(st as int, i as int))]);
            }
            st = i + 1;
        }
        i += 1;
    }
    proof {
        lemma_lines_last(s@, st as int);
    }
    if st < len {
        let piece = s.substring_char(st, len);
        let ghost old_out = out@;
        out.push(String::from_str(piece));
        proof {
            assert(out@.map_values(|l: String| l@) =~= old_out.map_values(|l: String| l@) + seq![
                s@.subrange(st as int, s@.len() as int),
            ]);
        }
    }
    out
}

/// What the pre-follow pass prints: the lines of the content that contain
/// the filter, all of them when the whole file was asked for, else only
/// the last `n_lines` of them, in original order.
pub open spec fn tail_lines_spec(
    s: Seq<char>,
    filter: Seq<char>,
    n_lines: int,
    read_all: bool,
) -> Seq<Seq<char>> {
    let m = spec_lines(s).filter(contains_fn(filter));
    if !read_all && m.len() > n_lines {
        m.skip(m.len() - n_lines)
    } else {
        m
    }
}

/// Select the lines shown before following starts; see `tail_lines_spec`.
/// An empty filter matches every line.
pub fn select_tail_lines(content: &str, filter: &str, n_lines: usize, read_all: bool) -> (r: Vec<
    String,
>)
    ensures
        r@.map_values(|l: String| l@) == tail_lines_spec(
            content@,
            filter@,
            n_lines as int,
            read_all,
        ),
{
    let ghost pred = contains_fn(filter@);
    let lines = split_lines(content);
    let ghost lv = lines@.map_values(|l: String| l@);
    let mut matching: Vec<String> = Vec::new();
    let mut i: usize = 0;
    while i < lines.len()
        invariant
            pred == contains_fn(filter@),
            lv == lines@.map_values(|l: String| l@),
            i <= lines@.len(),
            matching@.map_values(|l: String| l@) == lv.take(i as int).filter(pred),
        decreases lines@.len() - i,
    {
        let keep = str_contains(lines[i].as_str(), filter);
        proof {
            reveal(Seq::filter);
            assert(lv[i as int] == lines@[i as int]@);
            assert(keep == pred(lv[i as int]));
            assert(lv.take(i + 1).drop_last() =~= lv.take(i as int));
            assert(lv.take(i + 1).last() == lv[i as int]);
        }
        if keep {
            let ghost old_m = matching@;
            matching.push(lines[i].clone());
            proof {
                assert(matching@.map_values(|l: String| l@) =~= old_m.map_values(|l: String| l@)
                    + seq![lv[i as int]]);
            }
        }
        i += 1;
    }
    proof {
        assert(lv.take(lines@.len() as int) =~= lv);
    }
    let ghost m = lv.filter(pred);
    if !read_all && matching.len() > n_lines {
        let start = matching.len() - n_lines;
        let mut out: Vec<String> = Vec::new();
        let mut k: usize = start;
        while k < matching.len()
            invariant
                start <= k <= matching@.len(),
                m == matching@.map_values(|l: String| l@),
                out@.map_values(|l: String| l@) =~= m.subrange(start as int, k as int),
            decreases matching@.len() - k,
        {
            let ghost old_out = out@;
            out.push(matching[k].clone());
            proof {
                assert(out@.map_values(|l: String| l@) =~= old_out.map_values(|l: String| l@)
                    + seq![m[k as int]]);
                assert(m.subrange(start as int, k + 1) =~= m.subrange(start as int, k as int)
                    + seq![m[k as int]]);
            }
            k += 1;
        }
        proof {
            assert(m.subrange(start as int, m.len() as int) =~= m.skip(m.len() - n_lines));
        }
        out
    } else {
        matching
    }
}

/// What a `LogFollowState` holds, at the specification level.
pub ghost struct LogFollowStateV {
    pub pos: u64,
    pub partial: Seq<char>,
}

/// The state of one follow session: the byte offset read so far, and the
/// buffered newline-incomplete fragment of the last chunk.
#[derive(Debug)]
pub struct LogFollowState {
    /// Byte offset up to which the file has been read. Non-decreasing,
    /// except for the explicit reset to 0 on truncation.
    pub pos: u64,
    /// Trailing fragment of the read bytes that no newline has closed yet.
    pub partial: String,
}

impl View for LogFollowState {
    type V = LogFollowStateV;

    open spec fn view(&self) -> LogFollowStateV {
        LogFollowStateV { pos: self.pos, partial: self.partial@ }
    }
}

/// The complete lines a freshly appended chunk yields from the buffered
/// fragment: everything up to the last newline, split into lines, each
/// trimmed of trailing whitespace, filtered; and the new fragment past
/// that newline.
pub open spec fn chunk_lines_spec(buffered: Seq<char>, chunk: Seq<char>, filter: Seq<char>) -> (
    Seq<Seq<char>>,
    Seq<char>,
) {
    let joined = buffered + chunk;
    let r = crate::strutil::rfind_idx(joined, '\n');
    if r == -1 {
        (Seq::empty(), joined)
    } else {
        let complete = joined.subrange(0, r + 1);
        let rest = joined.subrange(r + 1, joined.len() as int);
        (
            spec_lines(complete).map_values(|l: Seq<char>| trim_end_spec(l)).filter(
                contains_fn(filter),
            ),
            rest,
        )
    }
}

impl LogFollowState {
    /// A fresh session that has read the file up to `pos` and holds no
    /// fragment.
    pub fn new(pos: u64) -> (s: Self)
        ensures
            s@.pos == pos,
            s@.partial.len() == 0,
    {
        LogFollowState { pos, partial: String::new() }
    }

    /// Fold a freshly read chunk into the session: the offset advances by
    /// the chunk's character count, the complete lines up to the last
    /// newline leave the buffer, and what follows it stays buffered.
    /// Returns the complete lines that contain the filter, each trimmed of
    /// trailing whitespace, in order.
    pub fn process_chunk(&mut self, chunk: &str, filter: &str) -> (out: Vec<String>)
        requires
            old(self)@.pos + chunk@.len() <= u64::MAX,
        ensures
            ({
                let (lines, rest) = chunk_lines_spec(old(self)@.partial, chunk@, filter@);
                out@.map_values(|l: String| l@) == lines && final(self)@.partial == rest
                    && final(self)@.pos == old(self)@.pos + chunk@.len()
            }),
    {
        let clen = chunk.unicode_len();
        self.pos = self.pos + clen as u64;
        self.partial.append(chunk);
        let ghost joined = self.partial@;
        let nl = rfind_char(self.partial.as_str(), '\n');
        match nl {
            None => Vec::new(),
            Some(r) => {
                let plen = self.partial.unicode_len();
                let complete = String::from_str(self.partial.as_str().substring_char(0, r + 1));
                let rest = String::from_str(self.partial.as_str().substring_char(r + 1, plen));
                self.partial = rest;
                let ghost pred = contains_fn(filter@);
                let lines = split_lines(complete.as_str());
                let ghost lv = lines@.map_values(|l: String| l@);
                let mut out: Vec<String> = Vec::new();
                let mut i: usize = 0;
                while i < lines.len()
                    invariant
                        pred == contains_fn(filter@),
                        lv == lines@.map_values(|l: String| l@),
                        i <= lines@.len(),
                        out@.map_values(|l: String| l@) == lv.take(i as int).map_values(
                            |l: Seq<char>| trim_end_spec(l),
                        ).filter(pred),
                    decreases lines@.len() - i,
                {
                    let t = trim_end_str(lines[i].as_str());
                    let keep = str_contains(t.as_str(), filter);
                    proof {
                        reveal(Seq::filter);
                        assert(lv[i as int] == lines@[i as int]@);
                        let tm = |l: Seq<char>| trim_end_spec(l);
                        assert(lv.take(i + 1).map_values(tm) =~= lv.take(i as int).map_values(
                            tm,
                        ).push(tm(lv[i as int])));
                        assert(lv.take(i as int).map_values(tm).push(tm(lv[i as int])).drop_last()
                            =~= lv.take(i as int).map_values(tm));
                        assert(keep == pred(tm(lv[i as int])));
                    }
                    if keep {
                        let ghost old_out = out@;
                        out.push(t);
                        proof {
                            let tm = |l: Seq<char>| trim_end_spec(l);
                            assert(out@.map_values(|l: String| l@) =~= old_out.map_values(
                                |l: String| l@,
                            ) + seq![tm(lv[i as int])]);
                        }
                    }
                    i += 1;
                }
                proof {
                    assert(lv.take(lines@.len() as int) =~= lv);
                }
                out
            },
        }
    }

    /// Whether the file has shrunk below the tracked offset: the
    /// truncation/rotation signal. An unreadable length is no signal.
    pub fn truncated(&self, current_len: Option<u64>) -> (r: bool)
        ensures
            r == match current_len {
                Some(l) => l < self@.pos,
                None => false,
            },
    {
        match current_len {
            Some(l) => l < self.pos,
            None => false,
        }
    }

    /// Recover from truncation: back to offset 0 with the buffered
    /// fragment discarded. The caller reopens the file and reports the
    /// event; it is never an error.
    pub fn reset_after_truncation(&mut self)
        ensures
            final(self)@.pos == 0,
            final(self)@.partial.len() == 0,
    {
        self.pos = 0;
        self.partial = String::new();
    }
}

} // verus!
