//! Reading of the text definition of a connection matrix: a header line
//! `num_left num_right`, then lines `left right cost`, fields separated by
//! white space; blank lines are skipped.

use vstd::prelude::*;
use vstd::string::StringExecFns;

use crate::dic::build::error::{BuildFailure, DicBuildError, DicCompilationCtx, DicWriteResult};
use crate::dic::build::parse::{
    is_blank, parse_i16_chars, spec_blank, spec_parse_i16, spec_splitn, spec_trim, splitn_ranges,
    trim_range,
};
use crate::dic::connect::{spec_cell, spec_i16s_at};
use crate::dic::read::{spec_i16_of, spec_u16_le, string_push};
use crate::error::{SudachiError, SudachiResult};
use crate::input_text::str_sizes;

verus! {

/// Where reading a definition stands.
#[derive(Clone, Copy, PartialEq, Eq, Structural, Debug)]
pub enum ConnPhase {
    /// The header has not been read yet.
    Header,
    /// The header has been read; cost lines follow.
    Entries,
    /// A line could not be read.
    Failed,
}

/// State of a definition being read: where it stands, the bytes of the
/// matrix and its dimensions.
pub ghost struct ConnState {
    pub phase: ConnPhase,
    pub matrix: Seq<u8>,
    pub left: i16,
    pub right: i16,
}

/// The fields of `line` split at runs of white space, at most `n` of them.
pub open spec fn spec_line_fields(line: Seq<char>, n: nat) -> Seq<Seq<char>> {
    spec_splitn(spec_trim(line), n)
}

/// The first `n` fields of `line` as 16-bit integers, if there are that
/// many and they all are integers.
pub open spec fn spec_parse_line(line: Seq<char>, n: nat) -> Option<Seq<i16>> {
    let f = spec_line_fields(line, n);
    if f.len() >= n && forall|k: int| 0 <= k < n ==> (#[trigger] spec_parse_i16(f[k])) is Some {
        Some(Seq::new(n, |k: int| spec_parse_i16(f[k])->0))
    } else {
        None
    }
}

/// `m` resized to `size` bytes: cut, or extended with zeros.
pub open spec fn spec_resized(m: Seq<u8>, size: nat) -> Seq<u8> {
    Seq::new(size, |i: int| if i < m.len() { m[i] } else { 0u8 })
}

/// Byte offset of the cost of `(left, right)` in a matrix with `num_left` rows.
pub open spec fn spec_cost_offset(left: int, right: int, num_left: int) -> int {
    (right * num_left + left) * 2
}

/// `m` with `cost` written in little-endian order at byte `at`.
pub open spec fn spec_put_cost(m: Seq<u8>, at: int, cost: i16) -> Seq<u8> {
    let u = cost as u16;
    m.update(at, (u % 256) as u8).update(at + 1, (u / 256) as u8)
}

/// The state after one line.
pub open spec fn spec_conn_step(st: ConnState, line: Seq<char>) -> ConnState {
    if st.phase == ConnPhase::Failed || spec_blank(line) {
        st
    } else if st.phase == ConnPhase::Header {
        match spec_parse_line(line, 2) {
            Some(v) => if v[0] >= 0 && v[1] >= 0 {
                ConnState {
                    phase: ConnPhase::Entries,
                    matrix: spec_resized(st.matrix, (v[0] * v[1] * 2) as nat),
                    left: v[0],
                    right: v[1],
                }
            } else {
                ConnState { phase: ConnPhase::Failed, ..st }
            },
            None => ConnState { phase: ConnPhase::Failed, ..st },
        }
    } else {
        match spec_parse_line(line, 3) {
            Some(v) => ConnState {
                matrix: spec_put_cost(st.matrix, spec_cost_offset(v[0] as int, v[1] as int, st.left as int), v[2]),
                ..st
            },
            None => ConnState { phase: ConnPhase::Failed, ..st },
        }
    }
}

/// Whether reading `line` in state `st` stays inside the matrix: a cost
/// line has non-negative ids whose cell lies in the matrix.
pub open spec fn spec_conn_line_ok(st: ConnState, line: Seq<char>) -> bool {
    st.phase == ConnPhase::Entries && !spec_blank(line) ==> match spec_parse_line(line, 3) {
        Some(v) => 0 <= v[0] && 0 <= v[1] && spec_cost_offset(v[0] as int, v[1] as int, st.left as int)
            + 1 < st.matrix.len(),
        None => true,
    }
}

/// The state after reading `text`, the current line holding `cur`: lines
/// end at each line feed, and at the end of the text.
pub open spec fn spec_conn_run(text: Seq<char>, st: ConnState, cur: Seq<char>) -> ConnState
    decreases text.len(),
{
    if text.len() == 0 {
        spec_conn_step(st, cur)
    } else if text[0] == '\n' {
        spec_conn_run(text.drop_first(), spec_conn_step(st, cur), Seq::empty())
    } else {
        spec_conn_run(text.drop_first(), st, cur.push(text[0]))
    }
}

/// Whether every line of `text`, the current line holding `cur`, stays
/// inside the matrix.
pub open spec fn spec_conn_safe(text: Seq<char>, st: ConnState, cur: Seq<char>) -> bool
    decreases text.len(),
{
    if text.len() == 0 {
        spec_conn_line_ok(st, cur)
    } else if text[0] == '\n' {
        spec_conn_line_ok(st, cur) && spec_conn_safe(text.drop_first(), spec_conn_step(st, cur), Seq::empty())
    } else {
        spec_conn_safe(text.drop_first(), st, cur.push(text[0]))
    }
}

/// Nothing changes once a line could not be read.
proof fn lemma_failed_stays(text: Seq<char>, st: ConnState, cur: Seq<char>)
    requires
        st.phase == ConnPhase::Failed,
    ensures
        spec_conn_run(text, st, cur) == st,
    decreases text.len(),
{
    if text.len() > 0 {
        if text[0] == '\n' {
            lemma_failed_stays(text.drop_first(), spec_conn_step(st, cur), Seq::empty());
        } else {
            lemma_failed_stays(text.drop_first(), st, cur.push(text[0]));
        }
    }
}

/// The characters of `s` as a string.
fn chars_to_string(s: &[char]) -> (r: String)
    ensures
        r@ == s@,
{
    let mut out = String::new();
    let mut i: usize = 0;
    while i < s.len()
        invariant
            i <= s@.len(),
            out@ == s@.take(i as int),
        decreases s@.len() - i,
    {
        string_push(&mut out, s[i]);
        proof {
            assert(s@.take(i + 1) =~= s@.take(i as int).push(s@[i as int]));
        }
        i = i + 1;
    }
    proof {
        assert(s@.take(i as int) =~= s@);
    }
    out
}

/// Error for a matrix dimension that is negative.
fn num_error(part: &str, value: i16) -> (r: SudachiError)
    ensures
        r matches SudachiError::DictionaryCompilationError(e) && e.cause == BuildFailure::InvalidConnSize(
            e.cause->InvalidConnSize_0,
            value,
        ) && e.cause->InvalidConnSize_0@ == part@,
{
    SudachiError::DictionaryCompilationError(
        DicBuildError {
            file: String::from_str("<connection>"),
            line: 0,
            cause: BuildFailure::InvalidConnSize(String::from_str(part), value),
        },
    )
}

/// Reads the first `n` fields of `line` as 16-bit integers, naming them
/// `names` in errors.
fn parse_fields(line: &[char], n: usize, names: &[&str]) -> (r: DicWriteResult<Vec<i16>>)
    requires
        names@.len() == n,
    ensures
        match spec_parse_line(line@, n as nat) {
            Some(v) => r matches Ok(w) && w@ == v,
            None => r is Err,
        },
{
    let (b, e) = trim_range(line);
    let ranges = splitn_ranges(line, b, e, n);
    let ghost f = spec_line_fields(line@, n as nat);
    let mut out: Vec<i16> = Vec::new();
    let mut k: usize = 0;
    while k < n
        invariant
            k <= n,
            names@.len() == n,
            f == spec_line_fields(line@, n as nat),
            ranges@.len() == f.len(),
            forall|m: int|
                0 <= m < ranges@.len() ==> {
                    &&& b <= (#[trigger] ranges@[m]).0 <= ranges@[m].1 <= e
                    &&& line@.subrange(ranges@[m].0 as int, ranges@[m].1 as int) == f[m]
                },
            e <= line@.len(),
            out@.len() == k,
            k <= f.len(),
            forall|m: int| 0 <= m < k ==> spec_parse_i16(#[trigger] f[m]) == Some(out@[m]),
        decreases n - k,
    {
        if k >= ranges.len() {
            return Err(
                BuildFailure::SplitFormatError {
                    field: String::from_str(names[k]),
                    original: chars_to_string(line),
                },
            );
        }
        let (fb, fe) = ranges[k];
        match parse_i16_chars(line, fb, fe) {
            Some(v) => {
                out.push(v);
            },
            None => {
                let mut lit = String::new();
                let mut j = fb;
                while j < fe
                    invariant
                        fb <= j <= fe <= line@.len(),
                    decreases fe - j,
                {
                    string_push(&mut lit, line[j]);
                    j = j + 1;
                }
                return Err(BuildFailure::InvalidI16Literal(lit));
            },
        }
        k = k + 1;
    }
    proof {
        let v = Seq::new(n as nat, |m: int| spec_parse_i16(f[m])->0);
        assert(out@ =~= v);
    }
    Ok(out)
}

/// Buffer of a connection matrix read from its text definition.
pub struct ConnBuffer {
    matrix: Vec<u8>,
    ctx: DicCompilationCtx,
    num_left: i16,
    num_right: i16,
}

impl ConnBuffer {
    /// The bytes of the matrix: the costs of all cells, two bytes each.
    pub closed spec fn spec_matrix(&self) -> Seq<u8> {
        self.matrix@
    }

    /// Number of left ids.
    pub closed spec fn spec_left(&self) -> i16 {
        self.num_left
    }

    /// Number of right ids.
    pub closed spec fn spec_right(&self) -> i16 {
        self.num_right
    }

    /// The state reading starts from.
    pub open spec fn spec_start(&self) -> ConnState {
        ConnState {
            phase: ConnPhase::Header,
            matrix: self.spec_matrix(),
            left: self.spec_left(),
            right: self.spec_right(),
        }
    }

    /// An empty buffer.
    pub fn new() -> (r: ConnBuffer)
        ensures
            r.spec_matrix().len() == 0,
            r.spec_left() == 0,
            r.spec_right() == 0,
    {
        ConnBuffer { matrix: Vec::new(), ctx: DicCompilationCtx::default(), num_left: 0, num_right: 0 }
    }

    /// The bytes of the matrix.
    pub fn matrix(&self) -> (r: &[u8])
        ensures
            r@ == self.spec_matrix(),
    {
        self.matrix.as_slice()
    }

    /// Names the source that errors are reported against; returns the
    /// previous name.
    pub fn set_filename(&mut self, name: String) -> (r: String)
        ensures
            final(self).spec_matrix() == old(self).spec_matrix(),
            final(self).spec_left() == old(self).spec_left(),
            final(self).spec_right() == old(self).spec_right(),
    {
        self.ctx.set_filename(name)
    }

    /// Number of left ids.
    pub fn left(&self) -> (r: i16)
        ensures
            r == self.spec_left(),
    {
        self.num_left
    }

    /// Number of right ids.
    pub fn right(&self) -> (r: i16)
        ensures
            r == self.spec_right(),
    {
        self.num_right
    }

    /// Appends the binary matrix to `writer`: both dimensions as
    /// little-endian `i16`, then the costs; returns the number of bytes. An
    /// error when a dimension is negative.
    pub fn write_to(&self, writer: &mut Vec<u8>) -> (r: SudachiResult<usize>)
        ensures
            r is Ok <==> self.spec_left() >= 0 && self.spec_right() >= 0 && self.spec_matrix().len()
                + 4 <= usize::MAX,
            r is Err ==> final(writer)@ == old(writer)@,
            r matches Ok(n) ==> n == 4 + self.spec_matrix().len() && final(writer)@ == old(writer)@
                + seq![
                    (self.spec_left() as u16 % 256) as u8,
                    (self.spec_left() as u16 / 256) as u8,
                    (self.spec_right() as u16 % 256) as u8,
                    (self.spec_right() as u16 / 256) as u8,
                ] + self.spec_matrix(),
    {
        if self.num_left < 0 {
            return Err(num_error("left", self.num_left));
        }
        if self.num_right < 0 {
            return Err(num_error("right", self.num_right));
        }
        if self.matrix.len() > usize::MAX - 4 {
            return Err(SudachiError::InvalidRange(0, self.matrix.len()));
        }
        let l = self.num_left as u16;
        let r = self.num_right as u16;
        writer.push((l % 256) as u8);
        writer.push((l / 256) as u8);
        writer.push((r % 256) as u8);
        writer.push((r / 256) as u8);
        let ghost head = writer@;
        let mut i: usize = 0;
        while i < self.matrix.len()
            invariant
                i <= self.matrix@.len(),
                writer@ == head + self.matrix@.take(i as int),
            decreases self.matrix@.len() - i,
        {
            writer.push(self.matrix[i]);
            proof {
                assert(self.matrix@.take(i + 1) =~= self.matrix@.take(i as int).push(self.matrix@[i as int]));
            }
            i = i + 1;
        }
        proof {
            assert(self.matrix@.take(i as int) =~= self.matrix@);
        }
        Ok(4 + self.matrix.len())
    }

    /// The state of the buffer, at phase `phase`.
    pub open spec fn spec_state(&self, phase: ConnPhase) -> ConnState {
        ConnState {
            phase,
            matrix: self.spec_matrix(),
            left: self.spec_left(),
            right: self.spec_right(),
        }
    }

    /// Reads the definition `text` into the buffer: the header sets the
    /// dimensions and resizes the matrix, each cost line writes one cell.
    /// An error at the first line that cannot be read (too few fields, a
    /// field that is not a 16-bit integer, a negative dimension), with the
    /// cells written before it kept.
    pub fn read(&mut self, text: &str) -> (r: SudachiResult<()>)
        requires
            spec_conn_run(text@, old(self).spec_start(), Seq::empty()).phase != ConnPhase::Header,
            spec_conn_safe(text@, old(self).spec_start(), Seq::empty()),
        ensures
            ({
                let fin = spec_conn_run(text@, old(self).spec_start(), Seq::empty());
                &&& (r is Ok <==> fin.phase == ConnPhase::Entries)
                &&& final(self).spec_matrix() == fin.matrix
                &&& final(self).spec_left() == fin.left
                &&& final(self).spec_right() == fin.right
            }),
    {
        let ghost all = text@;
        let ghost start = self.spec_start();
        let ghost fin = spec_conn_run(all, start, Seq::empty());
        let (_, nchars) = str_sizes(text);
        self.ctx.set_line(0);
        proof {
            assert(all.skip(0) =~= all);
        }
        let mut phase = ConnPhase::Header;
        let mut line: Vec<char> = Vec::new();
        let mut count: usize = 0;
        for c in it: text.chars()
            invariant
                all == text@,
                it.seq() == all,
                fin == spec_conn_run(all, start, Seq::empty()),
                phase != ConnPhase::Failed,
                phase == ConnPhase::Entries ==> self.spec_left() >= 0,
                start == old(self).spec_start(),
                spec_conn_run(all.skip(it.index() as int), self.spec_state(phase), line@) == fin,
                spec_conn_safe(all.skip(it.index() as int), self.spec_state(phase), line@),
                self.ctx.spec_line() <= it.index(),
                count == it.index(),
                nchars == all.len(),
        {
            let ghost i = it.index() as int;
            proof {
                assert(all.skip(i).drop_first() =~= all.skip(i + 1));
                assert(all.skip(i)[0] == c);
            }
            if c == '\n' {
                self.ctx.add_line(1);
                let ghost before = self.spec_state(phase);
                match self.process_line(phase, line.as_slice()) {
                    Ok(p) => {
                        phase = p;
                    },
                    Err(e) => {
                        proof {
                            let next = spec_conn_step(before, line@);
                            lemma_failed_stays(all.skip(i + 1), next, Seq::empty());
                            assert(spec_conn_run(all.skip(i), before, line@) == spec_conn_run(
                                all.skip(i + 1),
                                next,
                                Seq::empty(),
                            ));
                            assert(fin == next);
                            assert(self.spec_matrix() == next.matrix);
                        }
                        return Err(e);
                    },
                }
                line = Vec::new();
            } else {
                line.push(c);
            }
            count = count + 1;
        }
        proof {
            assert(all.skip(all.len() as int) =~= Seq::<char>::empty());
        }
        if line.len() > 0 {
            let lines_read = self.ctx.set_line(0);
            self.ctx.set_line(lines_read.saturating_add(1));
        }
        let p = self.process_line(phase, line.as_slice())?;
        if p == ConnPhase::Entries {
            Ok(())
        } else {
            Err(SudachiError::InvalidRange(0, count))
        }
    }

    /// Reads one line at phase `phase`.
    fn process_line(&mut self, phase: ConnPhase, line: &[char]) -> (r: SudachiResult<ConnPhase>)
        requires
            phase != ConnPhase::Failed,
            phase == ConnPhase::Entries ==> old(self).spec_left() >= 0,
            spec_conn_line_ok(old(self).spec_state(phase), line@),
        ensures
            final(self).ctx.spec_line() == old(self).ctx.spec_line(),
            r matches Ok(p) ==> (p == ConnPhase::Entries ==> final(self).spec_left() >= 0),
            ({
                let next = spec_conn_step(old(self).spec_state(phase), line@);
                &&& (r is Err <==> next.phase == ConnPhase::Failed)
                &&& (r matches Ok(p) ==> p == next.phase)
                &&& final(self).spec_matrix() == next.matrix
                &&& final(self).spec_left() == next.left
                &&& final(self).spec_right() == next.right
            }),
    {
        if is_blank(line) {
            return Ok(phase);
        }
        if phase == ConnPhase::Header {
            let names: [&str; 2] = ["left_num", "right_num"];
            let parsed = parse_fields(line, 2, names.as_slice());
            let v = self.ctx.transform(parsed)?;
            let left = v[0];
            let right = v[1];
            if left < 0 {
                return Err(num_error("left", left));
            }
            if right < 0 {
                return Err(num_error("right", right));
            }
            proof {
                assert(left as int * right as int <= 32767 * 32767) by (nonlinear_arith)
                    requires
                        0 <= left <= 32767,
                        0 <= right <= 32767,
                ;
            }
            let size = left as usize * right as usize * 2;
            self.matrix.resize(size, 0u8);
            self.num_left = left;
            self.num_right = right;
            proof {
                assert(self.matrix@ =~= spec_resized(old(self).matrix@, (left * right * 2) as nat));
            }
            Ok(ConnPhase::Entries)
        } else {
            let names: [&str; 3] = ["left", "right", "cost"];
            let parsed = parse_fields(line, 3, names.as_slice());
            let v = self.ctx.transform(parsed)?;
            let left = v[0];
            let right = v[1];
            let cost = v[2];
            proof {
                assert(0 <= right as int * self.num_left as int) by (nonlinear_arith)
                    requires
                        0 <= right,
                        0 <= self.num_left,
                ;
                assert((right as int * self.num_left as int + left as int) * 2 + 1 < self.matrix@.len());
            }
            let r_u = right as usize;
            let nl_u = self.num_left as usize;
            let l_u = left as usize;
            let mlen = self.matrix.len();
            proof {
                assert(r_u * nl_u == right as int * self.num_left as int);
                assert((r_u * nl_u + l_u) * 2 + 1 < mlen);
            }
            let index = (r_u * nl_u + l_u) * 2;
            let u = cost as u16;
            self.matrix.set(index, (u % 256) as u8);
            self.matrix.set(index + 1, (u / 256) as u8);
            Ok(ConnPhase::Entries)
        }
    }
}

/// The bytes [`ConnBuffer::write_to`] writes for dimensions `left` and
/// `right` and the matrix bytes `m`.
pub open spec fn spec_conn_bytes(left: i16, right: i16, m: Seq<u8>) -> Seq<u8> {
    seq![
        (left as u16 % 256) as u8,
        (left as u16 / 256) as u8,
        (right as u16 % 256) as u8,
        (right as u16 / 256) as u8,
    ] + m
}

proof fn lemma_i16_u16(v: i16)
    ensures
        (v as u16) as int == if v >= 0 {
            v as int
        } else {
            v + 65536
        },
{
    assert((v as u16) as int == if v >= 0 {
        v as int
    } else {
        v + 65536
    }) by (bit_vector);
}

/// A cost put into a matrix, written after the dimensions of the matrix,
/// reads back through [`ConnectionMatrix`](crate::dic::connect::ConnectionMatrix)
/// as the same cost at the same cell, and the dimensions as written.
pub proof fn lemma_written_cost_reads_back(
    m: Seq<u8>,
    left: i16,
    right: i16,
    l: int,
    r: int,
    cost: i16,
)
    requires
        left >= 0,
        right >= 0,
        m.len() == 2 * left * right,
        0 <= l < left,
        0 <= r < right,
    ensures
        ({
            let bytes = spec_conn_bytes(left, right, spec_put_cost(m, spec_cost_offset(l, r, left as int), cost));
            &&& spec_i16_of(spec_u16_le(bytes, 0)) == left
            &&& spec_i16_of(spec_u16_le(bytes, 2)) == right
            &&& spec_i16s_at(bytes, 4, left * right)[spec_cell(left as int, l, r)] == cost
        }),
{
    let at = spec_cost_offset(l, r, left as int);
    let put = spec_put_cost(m, at, cost);
    let bytes = spec_conn_bytes(left, right, put);
    lemma_i16_u16(left);
    lemma_i16_u16(right);
    lemma_i16_u16(cost);
    let cell = spec_cell(left as int, l, r);
    assert(0 <= cell < left * right) by (nonlinear_arith)
        requires
            cell == r * left + l,
            0 <= l < left,
            0 <= r < right,
    ;
    assert(at == 2 * cell);
    assert(2 * left * right == 2 * (left * right)) by (nonlinear_arith);
    assert(at + 1 < m.len());
    assert(bytes[4 + at] == put[at]);
    assert(bytes[4 + at + 1] == put[at + 1]);
    #[verifier::truncate]
    let u = cost as u16;
    assert(spec_u16_le(bytes, 4 + 2 * cell) == u as int);
}

/// What reading a line needs of a state: where reading stands, the
/// dimensions and the size of the matrix.
pub ghost struct ConnShape {
    pub phase: ConnPhase,
    pub left: i16,
    pub right: i16,
    pub len: nat,
}

/// The shape of a state.
pub open spec fn spec_shape(st: ConnState) -> ConnShape {
    ConnShape { phase: st.phase, left: st.left, right: st.right, len: st.matrix.len() }
}

/// The shape after one line.
pub open spec fn spec_shape_step(sh: ConnShape, line: Seq<char>) -> ConnShape {
    if sh.phase == ConnPhase::Failed || spec_blank(line) {
        sh
    } else if sh.phase == ConnPhase::Header {
        match spec_parse_line(line, 2) {
            Some(v) => if v[0] >= 0 && v[1] >= 0 {
                ConnShape { phase: ConnPhase::Entries, left: v[0], right: v[1], len: (v[0] * v[1] * 2) as nat }
            } else {
                ConnShape { phase: ConnPhase::Failed, ..sh }
            },
            None => ConnShape { phase: ConnPhase::Failed, ..sh },
        }
    } else {
        match spec_parse_line(line, 3) {
            Some(v) => sh,
            None => ConnShape { phase: ConnPhase::Failed, ..sh },
        }
    }
}

/// Whether a line read at shape `sh` stays inside the matrix.
pub open spec fn spec_shape_line_ok(sh: ConnShape, line: Seq<char>) -> bool {
    sh.phase == ConnPhase::Entries && !spec_blank(line) ==> match spec_parse_line(line, 3) {
        Some(v) => 0 <= v[0] && 0 <= v[1] && spec_cost_offset(v[0] as int, v[1] as int, sh.left as int) + 1
            < sh.len,
        None => true,
    }
}

/// Whether reading `text` from shape `sh`, the current line holding `cur`,
/// reaches the cost lines and stays inside the matrix.
pub open spec fn spec_shape_readable(text: Seq<char>, sh: ConnShape, cur: Seq<char>) -> bool
    decreases text.len(),
{
    if text.len() == 0 {
        spec_shape_line_ok(sh, cur) && spec_shape_step(sh, cur).phase != ConnPhase::Header
    } else if text[0] == '\n' {
        spec_shape_line_ok(sh, cur) && spec_shape_readable(text.drop_first(), spec_shape_step(sh, cur), Seq::empty())
    } else {
        spec_shape_readable(text.drop_first(), sh, cur.push(text[0]))
    }
}

proof fn lemma_shape_step(st: ConnState, line: Seq<char>)
    requires
        st.phase == ConnPhase::Entries ==> st.left >= 0,
    ensures
        spec_conn_step(st, line).phase == ConnPhase::Entries ==> spec_conn_step(st, line).left >= 0,
        spec_conn_line_ok(st, line) ==> spec_shape(spec_conn_step(st, line)) == spec_shape_step(
            spec_shape(st),
            line,
        ),
        spec_conn_line_ok(st, line) == spec_shape_line_ok(spec_shape(st), line),
{
    if st.phase == ConnPhase::Entries && !spec_blank(line) && spec_conn_line_ok(st, line) {
        if let Some(v) = spec_parse_line(line, 3) {
            let at = spec_cost_offset(v[0] as int, v[1] as int, st.left as int);
            assert(v[1] as int * st.left as int >= 0) by (nonlinear_arith)
                requires
                    v[1] >= 0,
                    st.left >= 0,
            ;
            assert(0 <= at);
            let u = v[2] as u16;
            assert(st.matrix.update(at, (u % 256) as u8).len() == st.matrix.len());
        }
    }
}

/// Reading a text is possible exactly when its shapes say so.
proof fn lemma_shape_readable(text: Seq<char>, st: ConnState, cur: Seq<char>)
    requires
        st.phase == ConnPhase::Entries ==> st.left >= 0,
    ensures
        spec_shape_readable(text, spec_shape(st), cur) == (spec_conn_run(text, st, cur).phase
            != ConnPhase::Header && spec_conn_safe(text, st, cur)),
    decreases text.len(),
{
    lemma_shape_step(st, cur);
    if text.len() > 0 {
        if text[0] == '\n' {
            lemma_shape_readable(text.drop_first(), spec_conn_step(st, cur), Seq::empty());
        } else {
            lemma_shape_readable(text.drop_first(), st, cur.push(text[0]));
        }
    }
}

impl ConnBuffer {
    /// Whether [`ConnBuffer::read`] can read `text`: a header comes before
    /// the end, and every cost line names a cell inside the matrix.
    pub fn readable(&self, text: &str) -> (r: bool)
        ensures
            r == (spec_conn_run(text@, self.spec_start(), Seq::empty()).phase != ConnPhase::Header
                && spec_conn_safe(text@, self.spec_start(), Seq::empty())),
    {
        let ghost all = text@;
        proof {
            lemma_shape_readable(all, self.spec_start(), Seq::empty());
            assert(all.skip(0) =~= all);
        }
        let mut phase = ConnPhase::Header;
        let mut left: i16 = self.num_left;
        let mut len: usize = self.matrix.len();
        let mut line: Vec<char> = Vec::new();
        let ghost right0 = self.num_right;
        let ghost mut right: i16 = self.num_right;
        for c in it: text.chars()
            invariant
                all == text@,
                it.seq() == all,
                spec_shape_readable(all, spec_shape(self.spec_start()), Seq::empty()) == (
                spec_conn_run(all, self.spec_start(), Seq::empty()).phase != ConnPhase::Header
                    && spec_conn_safe(all, self.spec_start(), Seq::empty())),
                spec_shape_readable(all, spec_shape(self.spec_start()), Seq::empty())
                    == spec_shape_readable(
                    all.skip(it.index() as int),
                    ConnShape { phase, left, right, len: len as nat },
                    line@,
                ),
                phase != ConnPhase::Failed,
        {
            let ghost i = it.index() as int;
            proof {
                assert(all.skip(i).drop_first() =~= all.skip(i + 1));
                assert(all.skip(i)[0] == c);
            }
            if c == '\n' {
                let ghost sh = ConnShape { phase, left, right, len: len as nat };
                if !line_fits(phase, left, len, line.as_slice(), Ghost(right)) {
                    return false;
                }
                let (p, l, n) = shape_step(phase, left, len, line.as_slice(), Ghost(right));
                proof {
                    let nx = spec_shape_step(sh, line@);
                    right = nx.right;
                }
                if p == ConnPhase::Failed {
                    proof {
                        lemma_failed_shape_readable(all.skip(i + 1), spec_shape_step(sh, line@), Seq::empty());
                    }
                    return true;
                }
                phase = p;
                left = l;
                len = n;
                line = Vec::new();
            } else {
                line.push(c);
            }
        }
        proof {
            assert(all.skip(all.len() as int) =~= Seq::<char>::empty());
        }
        if !line_fits(phase, left, len, line.as_slice(), Ghost(right)) {
            return false;
        }
        let (p, _, _) = shape_step(phase, left, len, line.as_slice(), Ghost(right));
        p != ConnPhase::Header
    }
}

/// Once a line cannot be read, nothing more is read: the rest of the text
/// is readable.
proof fn lemma_failed_shape_readable(text: Seq<char>, sh: ConnShape, cur: Seq<char>)
    requires
        sh.phase == ConnPhase::Failed,
    ensures
        spec_shape_readable(text, sh, cur),
    decreases text.len(),
{
    if text.len() > 0 {
        if text[0] == '\n' {
            lemma_failed_shape_readable(text.drop_first(), spec_shape_step(sh, cur), Seq::empty());
        } else {
            lemma_failed_shape_readable(text.drop_first(), sh, cur.push(text[0]));
        }
    }
}

/// Whether `line`, read at phase `phase` with `left` left ids and a matrix
/// of `len` bytes, stays inside the matrix.
fn line_fits(phase: ConnPhase, left: i16, len: usize, line: &[char], Ghost(rt): Ghost<i16>) -> (r:
    bool)
    ensures
        r == spec_shape_line_ok(ConnShape { phase, left, right: rt, len: len as nat }, line@),
{
    if phase != ConnPhase::Entries || is_blank(line) {
        return true;
    }
    let names: [&str; 3] = ["left", "right", "cost"];
    match parse_fields(line, 3, names.as_slice()) {
        Ok(v) => {
            let l = v[0];
            let r = v[1];
            proof {
                assert(-(32768 * 32767) <= r as int * left as int <= 32768 * 32768) by (nonlinear_arith)
                    requires
                        -32768 <= r <= 32767,
                        -32768 <= left <= 32767,
                ;
            }
            let at: i64 = (r as i64 * left as i64 + l as i64) * 2 + 1;
            if l < 0 || r < 0 {
                false
            } else if at < 0 {
                true
            } else {
                (at as u64) < (len as u64)
            }
        },
        Err(_) => true,
    }
}

/// The shape after `line`, read at phase `phase` with `left` left ids and a
/// matrix of `len` bytes: the phase, the left ids and the size after it.
fn shape_step(phase: ConnPhase, left: i16, len: usize, line: &[char], Ghost(rt): Ghost<i16>) -> (r:
    (ConnPhase, i16, usize))
    requires
        phase != ConnPhase::Failed,
    ensures
        ({
            let nx = spec_shape_step(ConnShape { phase, left, right: rt, len: len as nat }, line@);
            r.0 == nx.phase && (r.0 != ConnPhase::Failed ==> r.1 == nx.left && r.2 == nx.len)
        }),
{
    if is_blank(line) {
        return (phase, left, len);
    }
    if phase == ConnPhase::Header {
        let names: [&str; 2] = ["left_num", "right_num"];
        match parse_fields(line, 2, names.as_slice()) {
            Ok(v) => {
                let l = v[0];
                let r = v[1];
                if l < 0 || r < 0 {
                    return (ConnPhase::Failed, left, len);
                }
                proof {
                    assert(l as int * r as int <= 32767 * 32767) by (nonlinear_arith)
                        requires
                            0 <= l <= 32767,
                            0 <= r <= 32767,
                    ;
                }
                (ConnPhase::Entries, l, l as usize * r as usize * 2)
            },
            Err(_) => (ConnPhase::Failed, left, len),
        }
    } else {
        let names: [&str; 3] = ["left", "right", "cost"];
        match parse_fields(line, 3, names.as_slice()) {
            Ok(_) => (phase, left, len),
            Err(_) => (ConnPhase::Failed, left, len),
        }
    }
}

} // verus!
